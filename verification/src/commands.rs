//! The decisions behind the desktop commands: the recent-vaults list,
//! appending a wiki-link to a note, completion entries, link-resolution
//! answers and the graph cache key.

use vstd::prelude::*;
use crate::graph::GraphFilters;
use crate::markdown::ParsedNote;
use crate::order::{chars_equal, lex_less, lex_lt, lemma_lex_total, lemma_lex_transitive};
use crate::paths::{ends_with, file_stem, file_name_of, file_stem_or_path, has_md_suffix, md_suffix, file_name};
use crate::resolve::NoteId;
use crate::text::{append_chars, chars_of, slice_chars, string_from_chars, trim_end, CharSet, skip_backward, is_whitespace};
use crate::vault::note_title;
use std::hash::{Hash, Hasher};

verus! {

/// A recently opened vault.
#[derive(Debug, Clone)]
pub struct VaultEntry {
    pub path: String,
    pub name: String,
}

/// How many recent vaults are remembered.
pub const RECENT_VAULTS_MAX: usize = 10;

/// The recent-vaults list after opening `entry`: the entry first, then the
/// other vaults in their previous order without any entry of the same
/// path, at most [`RECENT_VAULTS_MAX`] in all.
pub open spec fn recent_after_open(vaults: Seq<(Seq<char>, Seq<char>)>, entry: (Seq<char>, Seq<char>)) -> Seq<
    (Seq<char>, Seq<char>),
> {
    let others = without_path(vaults, entry.0);
    let all = seq![entry] + others;
    if all.len() > RECENT_VAULTS_MAX {
        all.take(RECENT_VAULTS_MAX as int)
    } else {
        all
    }
}

/// The vaults whose path is not `path`, in order.
pub open spec fn without_path(vaults: Seq<(Seq<char>, Seq<char>)>, path: Seq<char>) -> Seq<
    (Seq<char>, Seq<char>),
>
    decreases vaults.len(),
{
    if vaults.len() == 0 {
        Seq::empty()
    } else if vaults.last().0 != path {
        without_path(vaults.drop_last(), path).push(vaults.last())
    } else {
        without_path(vaults.drop_last(), path)
    }
}

proof fn lemma_without_path(vaults: Seq<(Seq<char>, Seq<char>)>, path: Seq<char>)
    ensures
        forall|i: int|
            0 <= i < without_path(vaults, path).len() ==> (#[trigger] without_path(
                vaults,
                path,
            )[i]).0 != path,
    decreases vaults.len(),
{
    if vaults.len() > 0 {
        lemma_without_path(vaults.drop_last(), path);
        let prev = without_path(vaults.drop_last(), path);
        if vaults.last().0 != path {
            assert forall|i: int| 0 <= i < prev.push(vaults.last()).len() implies (
            #[trigger] prev.push(vaults.last())[i]).0 != path by {
                if i < prev.len() {
                    assert(prev.push(vaults.last())[i] == prev[i]);
                }
            }
        }
    }
}

pub open spec fn entry_views(v: Seq<VaultEntry>) -> Seq<(Seq<char>, Seq<char>)> {
    v.map_values(|e: VaultEntry| (e.path@, e.name@))
}

/// Updates the recent-vaults list after `entry` was opened.
pub fn update_recent_vaults(vaults: &Vec<VaultEntry>, entry: &VaultEntry) -> (r: Vec<VaultEntry>)
    ensures
        entry_views(r@) == recent_after_open(entry_views(vaults@), (entry.path@, entry.name@)),
{
    let ghost vv = entry_views(vaults@);
    let ghost ev = (entry.path@, entry.name@);
    let p = chars_of(entry.path.as_str());
    let mut out: Vec<VaultEntry> = Vec::new();
    out.push(VaultEntry { path: entry.path.clone(), name: entry.name.clone() });
    let mut i: usize = 0;
    assert(vv.take(0) =~= Seq::<(Seq<char>, Seq<char>)>::empty());
    assert(entry_views(out@) =~= seq![ev]);
    while i < vaults.len()
        invariant
            i <= vaults@.len(),
            vv == entry_views(vaults@),
            ev == (entry.path@, entry.name@),
            p@ == entry.path@,
            entry_views(out@) == seq![ev] + without_path(vv.take(i as int), ev.0),
        decreases vaults@.len() - i,
    {
        let v = &vaults[i];
        let ghost before = entry_views(out@);
        assert(vv.take(i + 1).drop_last() =~= vv.take(i as int));
        assert(vv.take(i + 1).last() == vv[i as int]);
        assert(vv[i as int] == (v.path@, v.name@));
        if !chars_equal(&chars_of(v.path.as_str()), &p) {
            out.push(VaultEntry { path: v.path.clone(), name: v.name.clone() });
            assert(entry_views(out@) =~= before.push(vv[i as int]));
            assert(seq![ev] + without_path(vv.take(i + 1), ev.0) =~= (seq![ev] + without_path(
                vv.take(i as int),
                ev.0,
            )).push(vv[i as int]));
        }
        i = i + 1;
    }
    assert(vv.take(i as int) =~= vv);
    out.truncate(RECENT_VAULTS_MAX);
    out
}

/// The recent-vaults list keeps the opened vault first and at most once,
/// and never grows past [`RECENT_VAULTS_MAX`] entries.
pub proof fn recent_vaults_front_unique_bounded(
    vaults: Seq<(Seq<char>, Seq<char>)>,
    entry: (Seq<char>, Seq<char>),
)
    ensures
        recent_after_open(vaults, entry).len() <= RECENT_VAULTS_MAX,
        recent_after_open(vaults, entry)[0] == entry,
        forall|i: int|
            0 < i < recent_after_open(vaults, entry).len() ==> (#[trigger] recent_after_open(
                vaults,
                entry,
            )[i]).0 != entry.0,
{
    let others = without_path(vaults, entry.0);
    let all = seq![entry] + others;
    lemma_without_path(vaults, entry.0);
    assert forall|i: int| 0 < i < all.len() implies (#[trigger] all[i]).0 != entry.0 by {
        assert(all[i] == others[i - 1]);
    }
}

/// The name shown for a vault: the last component of its canonical path,
/// or `"Vault"`.
pub fn vault_display_name(canonical_path: &str) -> (r: String)
    ensures
        r@ == match file_name(canonical_path@) {
            Some(n) => n,
            None => "Vault"@,
        },
{
    let v = chars_of(canonical_path);
    match file_name_of(&v) {
        Some((a, b)) => string_from_chars(slice_chars(&v, a, b).as_slice()),
        None => "Vault".to_owned(),
    }
}

// ---------------------------------------------------------------------------
// Appending a link
// ---------------------------------------------------------------------------

/// `existing` with the link `[[stem]]` appended on a line of its own,
/// separated from earlier text by a blank line.
pub open spec fn with_appended_link(existing: Seq<char>, stem: Seq<char>) -> Seq<char> {
    let link = seq!['[', '['] + stem + seq![']', ']'];
    if ends_with(existing, seq!['\n', '\n']) {
        existing + link + seq!['\n']
    } else if ends_with(existing, seq!['\n']) {
        existing + seq!['\n'] + link + seq!['\n']
    } else if existing.len() == 0 {
        link + seq!['\n']
    } else {
        existing + seq!['\n', '\n'] + link + seq!['\n']
    }
}

/// The new content of a note after appending a wiki-link to the note at
/// `target_path` (by its file stem); `None` when that path has no file
/// stem.
pub fn append_wiki_link_text(existing: &str, target_path: &str) -> (r: Option<String>)
    ensures
        match r {
            Some(s) => file_stem(target_path@) matches Some(stem) && s@ == with_appended_link(
                existing@,
                stem,
            ),
            None => file_stem(target_path@) is None,
        },
{
    let t = chars_of(target_path);
    let (a, b) = match file_name_of(&t) {
        Some(range) => range,
        None => return None,
    };
    let stem_str = file_stem_or_path(target_path);
    let stem = chars_of(stem_str.as_str());
    assert(stem@ == file_stem(target_path@)->0);
    let e = chars_of(existing);
    let n = e.len();
    let mut out = e.clone();
    let mut link: Vec<char> = Vec::new();
    link.push('[');
    link.push('[');
    append_chars(&mut link, &stem);
    link.push(']');
    link.push(']');
    assert(link@ =~= seq!['[', '['] + stem@ + seq![']', ']']);
    let two = n >= 2 && e[n - 1] == '\n' && e[n - 2] == '\n';
    let one = n >= 1 && e[n - 1] == '\n';
    proof {
        if n >= 2 {
            let last2 = e@.subrange(n - 2, n as int);
            assert(last2[0] == e@[n - 2] && last2[1] == e@[n - 1]);
            if two {
                assert(last2 =~= seq!['\n', '\n']);
            }
            assert(two == (last2 == seq!['\n', '\n']));
        } else {
            assert(!ends_with(e@, seq!['\n', '\n']));
        }
        if n >= 1 {
            let last1 = e@.subrange(n - 1, n as int);
            assert(last1[0] == e@[n - 1]);
            if one {
                assert(last1 =~= seq!['\n']);
            }
            assert(one == (last1 == seq!['\n']));
        }
    }
    assert(out@ == e@);
    if two {
        append_chars(&mut out, &link);
        out.push('\n');
    } else if one {
        out.push('\n');
        append_chars(&mut out, &link);
        out.push('\n');
    } else if n == 0 {
        append_chars(&mut out, &link);
        out.push('\n');
        assert(out@ =~= link@ + seq!['\n']);
    } else {
        out.push('\n');
        out.push('\n');
        append_chars(&mut out, &link);
        out.push('\n');
    }
    assert(out@ =~= with_appended_link(existing@, stem@));
    Some(string_from_chars(out.as_slice()))
}

/// An appended link starts on a line of its own after a blank line (or at
/// the start of an empty note), ends the note with a newline, and keeps
/// everything that was there before.
pub proof fn appended_link_is_separated(existing: Seq<char>, stem: Seq<char>)
    ensures
        ({
            let r = with_appended_link(existing, stem);
            let tail = seq!['[', '['] + stem + seq![']', ']', '\n'];
            &&& r.len() >= existing.len() + tail.len()
            &&& r.subrange(0, existing.len() as int) == existing
            &&& r.subrange(r.len() - tail.len(), r.len() as int) == tail
            &&& {
                let before = r.subrange(0, r.len() - tail.len());
                before.len() == 0 || ends_with(before, seq!['\n', '\n'])
            }
        }),
{
    let link = seq!['[', '['] + stem + seq![']', ']'];
    let tail = seq!['[', '['] + stem + seq![']', ']', '\n'];
    assert(link + seq!['\n'] =~= tail);
    let r = with_appended_link(existing, stem);
    if ends_with(existing, seq!['\n', '\n']) {
        assert(r =~= existing + tail);
        assert(r.subrange(0, r.len() - tail.len()) =~= existing);
    } else if ends_with(existing, seq!['\n']) {
        assert(r =~= (existing + seq!['\n']) + tail);
        let before = existing + seq!['\n'];
        assert(r.subrange(0, r.len() - tail.len()) =~= before);
        assert(before.subrange(before.len() - 2, before.len() as int) =~= seq!['\n', '\n']) by {
            assert(existing.subrange(existing.len() - 1, existing.len() as int)[0] == '\n');
        }
    } else if existing.len() == 0 {
        assert(r =~= tail);
        assert(r.subrange(0, r.len() - tail.len()) =~= Seq::<char>::empty());
    } else {
        assert(r =~= (existing + seq!['\n', '\n']) + tail);
        let before = existing + seq!['\n', '\n'];
        assert(r.subrange(0, r.len() - tail.len()) =~= before);
        assert(before.subrange(before.len() - 2, before.len() as int) =~= seq!['\n', '\n']);
    }
    assert(r.subrange(r.len() - tail.len(), r.len() as int) =~= tail);
    assert(r.subrange(0, existing.len() as int) =~= existing);
}

// ---------------------------------------------------------------------------
// Completion and resolution answers
// ---------------------------------------------------------------------------

/// A note offered for link completion.
#[derive(Debug, Clone)]
pub struct FileCompletionEntry {
    pub path: String,
    pub name: String,
}

/// A heading offered for fragment completion.
#[derive(Debug, Clone)]
pub struct HeadingCompletionEntry {
    pub level: u8,
    pub text: String,
}

/// A note that links to the current one.
#[derive(Debug, Clone)]
pub struct BacklinkEntry {
    /// Vault-relative path of the note that contains the link.
    pub source_path: String,
    /// Display title of the source note.
    pub source_title: String,
    /// The raw link target text as written in the source file.
    pub target: String,
    /// Optional heading fragment.
    pub fragment: Option<String>,
    /// Optional display alias used in the link.
    pub alias: Option<String>,
}

/// The completion entries for the indexed paths: each `.md` path, in
/// order, with its file stem (empty when it has none) as name.
pub open spec fn completions(paths: Seq<Seq<char>>) -> Seq<(Seq<char>, Seq<char>)>
    decreases paths.len(),
{
    if paths.len() == 0 {
        Seq::empty()
    } else {
        let prev = completions(paths.drop_last());
        let p = paths.last();
        if ends_with(p, md_suffix()) {
            prev.push(
                (
                    p,
                    match file_stem(p) {
                        Some(s) => s,
                        None => Seq::empty(),
                    },
                ),
            )
        } else {
            prev
        }
    }
}

pub fn file_completions(paths: &Vec<String>) -> (r: Vec<FileCompletionEntry>)
    ensures
        r@.map_values(|e: FileCompletionEntry| (e.path@, e.name@)) == completions(
            paths@.map_values(|s: String| s@),
        ),
{
    let ghost pv = paths@.map_values(|s: String| s@);
    let mut out: Vec<FileCompletionEntry> = Vec::new();
    let mut i: usize = 0;
    assert(pv.take(0) =~= Seq::<Seq<char>>::empty());
    assert(out@.map_values(|e: FileCompletionEntry| (e.path@, e.name@)) =~= Seq::empty());
    while i < paths.len()
        invariant
            i <= paths@.len(),
            pv == paths@.map_values(|s: String| s@),
            out@.map_values(|e: FileCompletionEntry| (e.path@, e.name@)) == completions(
                pv.take(i as int),
            ),
        decreases paths@.len() - i,
    {
        let p = &paths[i];
        let v = chars_of(p.as_str());
        assert(pv.take(i + 1).drop_last() =~= pv.take(i as int));
        assert(pv.take(i + 1).last() == p@);
        let ghost before = out@.map_values(|e: FileCompletionEntry| (e.path@, e.name@));
        if has_md_suffix(&v) {
            let name = match file_name_of(&v) {
                Some(_) => file_stem_or_path(p.as_str()),
                None => String::new(),
            };
            out.push(FileCompletionEntry { path: p.clone(), name });
            assert(out@.map_values(|e: FileCompletionEntry| (e.path@, e.name@)) =~= before.push(
                (
                    p@,
                    match file_stem(p@) {
                        Some(s) => s,
                        None => Seq::empty(),
                    },
                ),
            ));
        }
        i = i + 1;
    }
    assert(pv.take(i as int) =~= pv);
    out
}

/// How a link target resolved, as the editor shows it.
#[derive(Debug, Clone)]
pub enum LinkResolutionResult {
    Resolved { path: String },
    Unresolved,
    Ambiguous { paths: Vec<String> },
}

/// Inserts `x` after every path that does not sort after it.
pub open spec fn insert_path(s: Seq<Seq<char>>, x: Seq<char>) -> Seq<Seq<char>>
    decreases s.len(),
{
    if s.len() == 0 {
        seq![x]
    } else if !lex_lt(x, s.last()) {
        s.push(x)
    } else {
        insert_path(s.drop_last(), x).push(s.last())
    }
}

/// Paths sorted (duplicates kept).
pub open spec fn sort_paths(s: Seq<Seq<char>>) -> Seq<Seq<char>>
    decreases s.len(),
{
    if s.len() == 0 {
        Seq::empty()
    } else {
        insert_path(sort_paths(s.drop_last()), s.last())
    }
}

proof fn lemma_insert_path(s: Seq<Seq<char>>, x: Seq<char>, p: int)
    requires
        0 <= p <= s.len(),
        forall|k: int| p <= k < s.len() ==> lex_lt(x, #[trigger] s[k]),
        p > 0 ==> !lex_lt(x, s[p - 1]),
    ensures
        insert_path(s, x) == s.insert(p, x),
    decreases s.len(),
{
    if s.len() == 0 {
        assert(s.insert(p, x) =~= seq![x]);
    } else if p == s.len() {
        assert(s.insert(p, x) =~= s.push(x));
    } else {
        let init = s.drop_last();
        assert forall|k: int| p <= k < init.len() implies lex_lt(x, #[trigger] init[k]) by {
            assert(init[k] == s[k]);
        }
        if p > 0 {
            assert(init[p - 1] == s[p - 1]);
        }
        lemma_insert_path(init, x, p);
        assert(init.insert(p, x).push(s.last()) =~= s.insert(p, x));
    }
}

/// Sorts paths.
pub fn sorted_paths(paths: Vec<String>) -> (r: Vec<String>)
    ensures
        r@.map_values(|s: String| s@) == sort_paths(paths@.map_values(|s: String| s@)),
{
    let ghost pv = paths@.map_values(|s: String| s@);
    let mut out: Vec<String> = Vec::new();
    let mut k: usize = 0;
    assert(pv.take(0) =~= Seq::<Seq<char>>::empty());
    assert(out@.map_values(|s: String| s@) =~= Seq::<Seq<char>>::empty());
    while k < paths.len()
        invariant
            k <= paths@.len(),
            pv == paths@.map_values(|s: String| s@),
            out@.map_values(|s: String| s@) == sort_paths(pv.take(k as int)),
        decreases paths@.len() - k,
    {
        let x = chars_of(paths[k].as_str());
        let ghost ov = out@.map_values(|s: String| s@);
        let mut p = out.len();
        while p > 0 && lex_less(&x, &chars_of(out[p - 1].as_str()))
            invariant
                p <= out@.len(),
                ov == out@.map_values(|s: String| s@),
                forall|q: int| p <= q < ov.len() ==> lex_lt(x@, #[trigger] ov[q]),
            decreases p,
        {
            p = p - 1;
        }
        proof {
            lemma_insert_path(ov, x@, p as int);
            assert(pv.take(k + 1).drop_last() =~= pv.take(k as int));
            assert(pv.take(k + 1).last() == x@);
        }
        out.insert(p, paths[k].clone());
        assert(out@.map_values(|s: String| s@) =~= ov.insert(p as int, x@));
        k = k + 1;
    }
    assert(pv.take(k as int) =~= pv);
    out
}

// ---------------------------------------------------------------------------
// Titles and continuation
// ---------------------------------------------------------------------------

/// The display title used when embedding a note's chunks.
pub fn embed_title(rel_path: &str, note: &ParsedNote) -> (r: String)
    ensures
        r@ == crate::vault::title_choice(
            crate::text::opt_chars(note.title),
            rel_path@,
        ),
{
    note_title(rel_path, note)
}

/// The suggestion offered after text ending a sentence (or no text).
pub open spec fn after_sentence_suggestion() -> Seq<char> {
    "The thought unfurls further here \u{2014} a quiet elaboration the writer might pick up, or sweep aside with a keystroke."@
}

/// The suggestion offered inside a sentence.
pub open spec fn mid_sentence_suggestion() -> Seq<char> {
    "\u{2026}and the sentence finds its footing, settling into a cadence the writer can either carry forward or dismiss."@
}

/// Whether text, without trailing whitespace, ends a sentence: it is empty
/// or ends with `.`, `!` or `?`.
pub open spec fn ends_sentence(prefix: Seq<char>) -> bool {
    let t = trim_end(prefix);
    t.len() == 0 || t.last() == '.' || t.last() == '!' || t.last() == '?'
}

/// The continuation suggested after the text before the cursor.
pub fn continuation_for(prefix: &str) -> (r: String)
    ensures
        r@ == if ends_sentence(prefix@) {
            after_sentence_suggestion()
        } else {
            mid_sentence_suggestion()
        },
{
    let v = chars_of(prefix);
    let end = skip_backward(&v, 0, v.len(), CharSet::Ws);
    assert(v@.subrange(0, v@.len() as int) =~= v@);
    let ends = end == 0 || v[end - 1] == '.' || v[end - 1] == '!' || v[end - 1] == '?';
    proof {
        if end > 0 {
            assert(trim_end(prefix@).last() == v@[end - 1]);
        }
    }
    if ends {
        "The thought unfurls further here \u{2014} a quiet elaboration the writer might pick up, or sweep aside with a keystroke.".to_owned()
    } else {
        "\u{2026}and the sentence finds its footing, settling into a cadence the writer can either carry forward or dismiss.".to_owned()
    }
}


// ---------------------------------------------------------------------------
// Graph cache key
// ---------------------------------------------------------------------------

/// The 64-bit `DefaultHasher` hash of a filter key: the tag list, the
/// folder and the modification bound, hashed in that order.
pub uninterp spec fn filter_key_hash(
    tags: Seq<Seq<char>>,
    folder: Option<Seq<char>>,
    modified_after: Option<i64>,
) -> u64;

/// Hashes a filter key with std's `DefaultHasher` (`Hash` of the three
/// parts in order, then `finish`). Claimed: the hash is a function of the
/// key alone — `DefaultHasher::new` is not seeded per process.
#[verifier::external_body]
fn hash_filter_key(tags: &Vec<String>, folder: &Option<String>, modified_after: Option<i64>) -> (r:
    u64)
    ensures
        r == filter_key_hash(
            tags@.map_values(|s: String| s@),
            crate::text::opt_chars(*folder),
            modified_after,
        ),
{
    let mut hasher = std::collections::hash_map::DefaultHasher::new();
    (tags, folder, modified_after).hash(&mut hasher);
    hasher.finish()
}

/// A filter set's tag list (empty when there is none).
pub open spec fn filter_tag_list(filters: GraphFilters) -> Seq<Seq<char>> {
    match filters.tags {
        Some(t) => t@.map_values(|s: String| s@),
        None => Seq::empty(),
    }
}

/// The cache key hash of a filter set: the hash of its tags sorted, its
/// folder and its modification bound.
pub open spec fn filters_hash(filters: GraphFilters) -> u64 {
    filter_key_hash(
        sort_paths(filter_tag_list(filters)),
        crate::text::opt_chars(filters.folder),
        filters.modified_after,
    )
}

/// The graph cache key of a filter set: its tags sorted (so their order
/// does not matter), its folder and its modification bound.
pub fn hash_filters(filters: &GraphFilters) -> (r: u64)
    ensures
        r == filters_hash(*filters),
{
    let tags = match &filters.tags {
        Some(t) => {
            let mut copy: Vec<String> = Vec::new();
            let mut i: usize = 0;
            while i < t.len()
                invariant
                    i <= t@.len(),
                    copy@.map_values(|s: String| s@) == t@.map_values(|s: String| s@).take(
                        i as int,
                    ),
                decreases t@.len() - i,
            {
                let ghost before = copy@.map_values(|s: String| s@);
                copy.push(t[i].clone());
                assert(copy@.map_values(|s: String| s@) =~= before.push(t@[i as int]@));
                assert(t@.map_values(|s: String| s@).take(i + 1) =~= t@.map_values(
                    |s: String| s@,
                ).take(i as int).push(t@[i as int]@));
                i = i + 1;
            }
            assert(t@.map_values(|s: String| s@).take(i as int) =~= t@.map_values(
                |s: String| s@,
            ));
            copy
        },
        None => {
            let v: Vec<String> = Vec::new();
            assert(v@.map_values(|s: String| s@) =~= Seq::<Seq<char>>::empty());
            v
        },
    };
    let sorted = sorted_paths(tags);
    hash_filter_key(&sorted, &filters.folder, filters.modified_after)
}
/// Paths ordered as `sort_paths` orders them: `a` does not sort after `b`.
pub open spec fn path_leq(a: Seq<char>, b: Seq<char>) -> bool {
    !lex_lt(b, a)
}

proof fn lemma_path_leq_total()
    ensures
        vstd::relations::total_ordering(|a: Seq<char>, b: Seq<char>| path_leq(a, b)),
{
    let leq = |a: Seq<char>, b: Seq<char>| path_leq(a, b);
    assert forall|x: Seq<char>| #[trigger] leq(x, x) by {
        crate::order::lemma_lex_irreflexive(x);
    }
    assert forall|x: Seq<char>, y: Seq<char>| #[trigger] leq(x, y) && #[trigger] leq(y, x) implies x
        == y by {
        crate::order::lemma_lex_total(x, y);
    }
    assert forall|x: Seq<char>, y: Seq<char>, z: Seq<char>| #[trigger] leq(x, y) && #[trigger] leq(
        y,
        z,
    ) implies leq(x, z) by {
        crate::order::lemma_lex_total(x, y);
        crate::order::lemma_lex_total(y, z);
        if lex_lt(z, x) {
            if lex_lt(x, y) {
                crate::order::lemma_lex_transitive(z, x, y);
            }
        }
    }
    assert forall|x: Seq<char>, y: Seq<char>| #[trigger] leq(x, y) || #[trigger] leq(y, x) by {
        crate::order::lemma_lex_asymmetric(x, y);
    }
}

proof fn lemma_insert_path_sorted(s: Seq<Seq<char>>, x: Seq<char>)
    requires
        vstd::relations::sorted_by(s, |a: Seq<char>, b: Seq<char>| path_leq(a, b)),
    ensures
        vstd::relations::sorted_by(insert_path(s, x), |a: Seq<char>, b: Seq<char>| path_leq(a, b)),
        insert_path(s, x).to_multiset() == s.to_multiset().insert(x),
    decreases s.len(),
{
    broadcast use vstd::seq_lib::group_to_multiset_ensures;
    broadcast use vstd::multiset::group_multiset_axioms;

    let leq = |a: Seq<char>, b: Seq<char>| path_leq(a, b);
    lemma_path_leq_total();
    let r = insert_path(s, x);
    if s.len() == 0 {
        assert(r =~= Seq::<Seq<char>>::empty().push(x));
    } else if !lex_lt(x, s.last()) {
        assert forall|i: int, j: int| 0 <= i < j < r.len() implies #[trigger] leq(r[i], r[j]) by {
            if j == s.len() {
                assert(leq(s.last(), x));
                if i < s.len() - 1 {
                    assert(leq(s[i], s[s.len() - 1]));
                    assert(leq(s[i], s.last()));
                }
                assert(leq(s[i], x));
            } else {
                assert(leq(s[i], s[j]));
            }
        }
    } else {
        let init = s.drop_last();
        let r0 = insert_path(init, x);
        assert(vstd::relations::sorted_by(init, leq)) by {
            assert forall|i: int, j: int| 0 <= i < j < init.len() implies #[trigger] leq(
                init[i],
                init[j],
            ) by {
                assert(leq(s[i], s[j]));
            }
        }
        lemma_insert_path_sorted(init, x);
        crate::order::lemma_lex_asymmetric(x, s.last());
        assert forall|i: int, j: int| 0 <= i < j < r.len() implies #[trigger] leq(r[i], r[j]) by {
            if j == r0.len() {
                assert(r0.contains(r0[i]));
                assert(r0.to_multiset().count(r0[i]) > 0);
                if r0[i] != x {
                    assert(init.to_multiset().count(r0[i]) > 0);
                    assert(init.contains(r0[i]));
                    let k = choose|k: int| 0 <= k < init.len() && init[k] == r0[i];
                    assert(leq(s[k], s[s.len() - 1]));
                }
            } else {
                assert(r[i] == r0[i] && r[j] == r0[j]);
            }
        }
        assert(s =~= init.push(s.last()));
        assert(r.to_multiset() =~= s.to_multiset().insert(x));
    }
}

proof fn lemma_sort_paths_sorted(s: Seq<Seq<char>>)
    ensures
        vstd::relations::sorted_by(sort_paths(s), |a: Seq<char>, b: Seq<char>| path_leq(a, b)),
        sort_paths(s).to_multiset() == s.to_multiset(),
    decreases s.len(),
{
    broadcast use vstd::seq_lib::group_to_multiset_ensures;

    if s.len() == 0 {
        assert(sort_paths(s).to_multiset() =~= s.to_multiset());
    } else {
        lemma_sort_paths_sorted(s.drop_last());
        lemma_insert_path_sorted(sort_paths(s.drop_last()), s.last());
        assert(s =~= s.drop_last().push(s.last()));
    }
}

/// Sorting paths forgets their order: two lists holding the same paths,
/// each as often, sort to the same list.
pub proof fn sort_paths_ignores_order(a: Seq<Seq<char>>, b: Seq<Seq<char>>)
    requires
        a.to_multiset() == b.to_multiset(),
    ensures
        sort_paths(a) == sort_paths(b),
{
    lemma_sort_paths_sorted(a);
    lemma_sort_paths_sorted(b);
    lemma_path_leq_total();
    vstd::seq_lib::lemma_sorted_unique(
        sort_paths(a),
        sort_paths(b),
        |x: Seq<char>, y: Seq<char>| path_leq(x, y),
    );
}

/// Equivalent filter sets share a cache key: filters whose tag lists hold
/// the same tags in any order, with the same folder and modification
/// bound, hash alike.
pub proof fn filters_hash_ignores_tag_order(a: GraphFilters, b: GraphFilters)
    requires
        filter_tag_list(a).to_multiset() == filter_tag_list(b).to_multiset(),
        crate::text::opt_chars(a.folder) == crate::text::opt_chars(b.folder),
        a.modified_after == b.modified_after,
    ensures
        filters_hash(a) == filters_hash(b),
{
    sort_paths_ignores_order(filter_tag_list(a), filter_tag_list(b));
}

} // verus!
