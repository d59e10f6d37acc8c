//! Rename planning: which wiki-links must be rewritten when a note or a
//! folder is renamed, and the rewriting of file contents.
//!
//! Links that reach the renamed file through a frontmatter alias are not
//! rewritten: the alias stays valid. A plain-stem link becomes the new
//! stem, or the path-qualified new path when another indexed file already
//! has the new stem; a path-qualified link becomes the new path.

use vstd::prelude::*;
use crate::order::{lex_less, lex_lt, lemma_lex_total, lemma_lex_transitive, lemma_lex_asymmetric, lemma_lex_irreflexive, chars_equal};
use crate::paths::{
    chars_eq_ignore_ascii_case, eq_ignore_ascii_case, path_stem, strip_md, has_md_suffix,
    stem_from_path, md_suffix, ends_with,
};
use crate::syntax::{CharClass, LinkParts, wiki_links, wiki_links_from, wiki_link_at, link_close, run_end, lemma_run_end_exact};
use crate::text::{append_chars, chars_of, opt_chars, slice_chars, string_from_chars, trim, CharSet, skip_backward};

verus! {

/// A single link-text rewrite within one file.
#[derive(Debug, Clone, PartialEq)]
pub struct RenameEdit {
    /// Vault-relative path of the file that needs to be rewritten.
    pub file_path: String,
    /// The wiki-link text before the rename (e.g., `"[[old-name]]"`).
    pub before: String,
    /// The replacement wiki-link text (e.g., `"[[new-name]]"`).
    pub after: String,
}

/// The full set of rewrites required for a rename operation.
#[derive(Debug, Clone)]
pub struct RenamePlan {
    /// The vault-relative path being renamed.
    pub old_path: String,
    /// The new vault-relative path after rename.
    pub new_path: String,
    /// All link text edits across the vault. May be empty.
    pub edits: Vec<RenameEdit>,
}

/// An edit as plain text: file, text before, text after.
pub type EditView = (Seq<char>, Seq<char>, Seq<char>);

impl RenameEdit {
    pub open spec fn view3(self) -> EditView {
        (self.file_path@, self.before@, self.after@)
    }
}

pub open spec fn edit_views(v: Seq<RenameEdit>) -> Seq<EditView> {
    v.map_values(|e: RenameEdit| e.view3())
}

// ---------------------------------------------------------------------------
// Link text
// ---------------------------------------------------------------------------

/// `[[target#fragment|alias]]`, each optional part present when given.
pub open spec fn link_text(
    target: Seq<char>,
    fragment: Option<Seq<char>>,
    alias: Option<Seq<char>>,
) -> Seq<char> {
    let f = match fragment {
        Some(fr) => seq!['#'] + fr,
        None => Seq::empty(),
    };
    let a = match alias {
        Some(al) => seq!['|'] + al,
        None => Seq::empty(),
    };
    seq!['[', '['] + target + f + a + seq![']', ']']
}

/// Reconstructs a `[[wiki-link]]` string from its components.
pub fn format_wiki_link(target: &str, fragment: Option<&str>, alias: Option<&str>) -> (r: String)
    ensures
        r@ == link_text(
            target@,
            match fragment {
                Some(f) => Some(f@),
                None => None,
            },
            match alias {
                Some(a) => Some(a@),
                None => None,
            },
        ),
{
    let mut s: Vec<char> = Vec::new();
    s.push('[');
    s.push('[');
    append_chars(&mut s, &chars_of(target));
    let ghost head = s@;
    let ghost f = match fragment {
        Some(fr) => seq!['#'] + fr@,
        None => Seq::<char>::empty(),
    };
    if let Some(frag) = fragment {
        s.push('#');
        append_chars(&mut s, &chars_of(frag));
    }
    assert(s@ =~= head + f);
    let ghost mid = s@;
    let ghost a = match alias {
        Some(al) => seq!['|'] + al@,
        None => Seq::<char>::empty(),
    };
    if let Some(al) = alias {
        s.push('|');
        append_chars(&mut s, &chars_of(al));
    }
    assert(s@ =~= mid + a);
    s.push(']');
    s.push(']');
    assert(s@ =~= seq!['[', '['] + target@ + f + a + seq![']', ']']);
    string_from_chars(s.as_slice())
}

/// The parts of a link that the wiki-link grammar reads back unchanged: a
/// non-empty target without `]`, `#`, `|` and without surrounding
/// whitespace; a non-empty fragment without `]`, `|`; a non-empty alias
/// without `]`.
pub open spec fn well_formed_parts(
    target: Seq<char>,
    fragment: Option<Seq<char>>,
    alias: Option<Seq<char>>,
) -> bool {
    &&& target.len() > 0
    &&& trim(target) == target
    &&& forall|k: int| 0 <= k < target.len() ==> CharClass::Target.holds(#[trigger] target[k])
    &&& (fragment matches Some(f) ==> f.len() > 0 && forall|k: int|
        0 <= k < f.len() ==> CharClass::Fragment.holds(#[trigger] f[k]))
    &&& (alias matches Some(a) ==> a.len() > 0 && forall|k: int|
        0 <= k < a.len() ==> CharClass::Alias.holds(#[trigger] a[k]))
}

/// A formatted link reads back as exactly that link: the text that
/// [`format_wiki_link`] writes for well-formed parts contains one wiki-link,
/// with the same target, fragment and alias.
#[verifier::rlimit(60)]
#[verifier::spinoff_prover]
pub proof fn formatted_link_parses_back(
    target: Seq<char>,
    fragment: Option<Seq<char>>,
    alias: Option<Seq<char>>,
)
    requires
        well_formed_parts(target, fragment, alias),
    ensures
        wiki_links(link_text(target, fragment, alias)) == seq![(target, fragment, alias)],
{
    let s = link_text(target, fragment, alias);
    let f = match fragment {
        Some(fr) => seq!['#'] + fr,
        None => Seq::<char>::empty(),
    };
    let a = match alias {
        Some(al) => seq!['|'] + al,
        None => Seq::<char>::empty(),
    };
    let tl = target.len() as int;
    let fl = f.len() as int;
    let al = a.len() as int;
    let n = s.len() as int;
    assert(n == 2 + tl + fl + al + 2);
    assert forall|k: int| 0 <= k < tl implies s[2 + k] == target[k] by {}
    assert forall|k: int| 0 <= k < fl implies s[2 + tl + k] == f[k] by {}
    assert forall|k: int| 0 <= k < al implies s[2 + tl + fl + k] == a[k] by {}
    assert(s[n - 2] == ']' && s[n - 1] == ']');
    assert(s[0] == '[' && s[1] == '[');
    let te = 2 + tl;
    assert forall|k: int| 2 <= k < te implies CharClass::Target.holds(#[trigger] s[k]) by {
        assert(s[k] == target[k - 2]);
    }
    assert(!CharClass::Target.holds(s[te])) by {
        if fl > 0 {
            assert(s[te] == f[0]);
        } else if al > 0 {
            assert(s[te] == a[0]);
        }
    }
    lemma_run_end_exact(s, 2, te, CharClass::Target);
    assert(s.subrange(2, te) =~= target);
    let p = match fragment {
        Some(fr) => {
            let fe = te + 1 + fr.len();
            assert(s[te] == '#');
            assert forall|k: int| te + 1 <= k < fe implies CharClass::Fragment.holds(
                #[trigger] s[k],
            ) by {
                assert(s[k] == f[k - te]);
                assert(f[k - te] == fr[k - te - 1]);
            }
            assert(!CharClass::Fragment.holds(s[fe])) by {
                if al > 0 {
                    assert(s[fe] == a[0]);
                }
            }
            lemma_run_end_exact(s, te + 1, fe, CharClass::Fragment);
            assert(s.subrange(te + 1, fe) =~= fr);
            fe
        },
        None => te,
    };
    match alias {
        Some(als) => {
            let ae = p + 1 + als.len();
            assert(s[p] == '|');
            assert forall|k: int| p + 1 <= k < ae implies CharClass::Alias.holds(
                #[trigger] s[k],
            ) by {
                assert(s[k] == a[k - p]);
                assert(a[k - p] == als[k - p - 1]);
            }
            lemma_run_end_exact(s, p + 1, ae, CharClass::Alias);
            assert(s.subrange(p + 1, ae) =~= als);
            assert(ae + 2 == n);
        },
        None => {
            assert(p + 2 == n);
        },
    }
    assert(link_close(s, p, target, fragment) == Some(((target, fragment, alias), n)));
    assert(wiki_link_at(s, 0) == Some(((target, fragment, alias), n)));
    assert(wiki_links_from(s, n) == Seq::<LinkParts>::empty());
    assert(wiki_links_from(s, 0) =~= seq![(target, fragment, alias)]);
}

// ---------------------------------------------------------------------------
// Replacing text
// ---------------------------------------------------------------------------

/// Left-to-right, non-overlapping replacement of a non-empty `pat` by
/// `rep`, from position `i`.
pub open spec fn replace_from(s: Seq<char>, pat: Seq<char>, rep: Seq<char>, i: int) -> Seq<char>
    decreases s.len() - i,
{
    if i < 0 || i >= s.len() || pat.len() == 0 {
        Seq::empty()
    } else if i + pat.len() <= s.len() && s.subrange(i, i + pat.len()) == pat {
        rep + replace_from(s, pat, rep, i + pat.len())
    } else {
        seq![s[i]] + replace_from(s, pat, rep, i + 1)
    }
}

/// An empty pattern matches before every character and at the end.
pub open spec fn interleave(s: Seq<char>, rep: Seq<char>) -> Seq<char>
    decreases s.len(),
{
    if s.len() == 0 {
        rep
    } else {
        interleave(s.drop_last(), rep) + seq![s.last()] + rep
    }
}

/// `str::replace(pat, rep)`.
pub open spec fn replace_all(s: Seq<char>, pat: Seq<char>, rep: Seq<char>) -> Seq<char> {
    if pat.len() == 0 {
        interleave(s, rep)
    } else {
        replace_from(s, pat, rep, 0)
    }
}

fn matches_at(s: &Vec<char>, i: usize, pat: &Vec<char>) -> (r: bool)
    requires
        i + pat@.len() <= s@.len(),
    ensures
        r == (s@.subrange(i as int, i + pat@.len()) == pat@),
{
    let n = s.len();
    let mut k: usize = 0;
    while k < pat.len()
        invariant
            n == s@.len(),
            i + pat@.len() <= n,
            k <= pat@.len(),
            forall|m: int| 0 <= m < k ==> s@[i + m] == pat@[m],
        decreases pat@.len() - k,
    {
        if s[i + k] != pat[k] {
            assert(s@.subrange(i as int, i + pat@.len())[k as int] != pat@[k as int]);
            return false;
        }
        k = k + 1;
    }
    assert(s@.subrange(i as int, i + pat@.len()) =~= pat@);
    true
}

fn replace_chars(s: &Vec<char>, pat: &Vec<char>, rep: &Vec<char>) -> (r: Vec<char>)
    ensures
        r@ == replace_all(s@, pat@, rep@),
{
    let mut out: Vec<char> = Vec::new();
    if pat.len() == 0 {
        append_chars(&mut out, rep);
        let mut i: usize = 0;
        assert(out@ =~= interleave(s@.take(0), rep@));
        while i < s.len()
            invariant
                i <= s@.len(),
                out@ == interleave(s@.take(i as int), rep@),
            decreases s@.len() - i,
        {
            out.push(s[i]);
            append_chars(&mut out, rep);
            assert(s@.take(i + 1).drop_last() =~= s@.take(i as int));
            i = i + 1;
        }
        assert(s@.take(i as int) =~= s@);
        return out;
    }
    let mut i: usize = 0;
    assert(out@ + replace_from(s@, pat@, rep@, 0) =~= replace_from(s@, pat@, rep@, 0));
    while i < s.len()
        invariant
            i <= s@.len(),
            pat@.len() > 0,
            out@ + replace_from(s@, pat@, rep@, i as int) == replace_from(s@, pat@, rep@, 0),
        decreases s@.len() - i,
    {
        let ghost before = out@;
        if pat.len() <= s.len() - i && matches_at(s, i, pat) {
            append_chars(&mut out, rep);
            assert(before + (rep@ + replace_from(s@, pat@, rep@, i + pat@.len())) =~= out@
                + replace_from(s@, pat@, rep@, i + pat@.len()));
            i = i + pat.len();
        } else {
            out.push(s[i]);
            assert(before + (seq![s@[i as int]] + replace_from(s@, pat@, rep@, i + 1)) =~= out@
                + replace_from(s@, pat@, rep@, i + 1));
            i = i + 1;
        }
    }
    assert(out@ + Seq::<char>::empty() =~= out@);
    out
}

/// `content` after every edit for `path`, in order, has replaced all
/// occurrences of its `before` text by its `after` text.
pub open spec fn rewritten(content: Seq<char>, path: Seq<char>, edits: Seq<RenameEdit>) -> Seq<
    char,
>
    decreases edits.len(),
{
    if edits.len() == 0 {
        content
    } else {
        let prev = rewritten(content, path, edits.drop_last());
        let e = edits.last();
        if e.file_path@ == path {
            replace_all(prev, e.before@, e.after@)
        } else {
            prev
        }
    }
}

/// Applies all `RenameEdit` replacements for `path` to `content`.
///
/// All occurrences of each `before` string are replaced with `after`.
/// Multiple edits for the same file are applied sequentially.
pub fn rewrite_content(content: &str, path: &str, edits: &[RenameEdit]) -> (r: String)
    ensures
        r@ == rewritten(content@, path@, edits@),
{
    let mut result = chars_of(content);
    let path_chars = chars_of(path);
    let mut i: usize = 0;
    assert(edits@.take(0) =~= Seq::<RenameEdit>::empty());
    while i < edits.len()
        invariant
            i <= edits@.len(),
            path_chars@ == path@,
            result@ == rewritten(content@, path@, edits@.take(i as int)),
        decreases edits@.len() - i,
    {
        let e = &edits[i];
        let fp = chars_of(e.file_path.as_str());
        if chars_equal(&fp, &path_chars) {
            let before = chars_of(e.before.as_str());
            let after = chars_of(e.after.as_str());
            result = replace_chars(&result, &before, &after);
        }
        assert(edits@.take(i + 1).drop_last() =~= edits@.take(i as int));
        i = i + 1;
    }
    assert(edits@.take(i as int) =~= edits@);
    string_from_chars(result.as_slice())
}

/// Rewriting leaves a file untouched when no edit is for it.
pub proof fn rewrite_without_edits_for_path_is_identity(
    content: Seq<char>,
    path: Seq<char>,
    edits: Seq<RenameEdit>,
)
    requires
        forall|k: int| 0 <= k < edits.len() ==> (#[trigger] edits[k]).file_path@ != path,
    ensures
        rewritten(content, path, edits) == content,
    decreases edits.len(),
{
    if edits.len() > 0 {
        assert forall|k: int| 0 <= k < edits.drop_last().len() implies (
        #[trigger] edits.drop_last()[k]).file_path@ != path by {
            assert(edits.drop_last()[k] == edits[k]);
        }
        rewrite_without_edits_for_path_is_identity(content, path, edits.drop_last());
    }
}

proof fn lemma_replace_same(s: Seq<char>, pat: Seq<char>, i: int)
    requires
        pat.len() > 0,
        0 <= i <= s.len(),
    ensures
        replace_from(s, pat, pat, i) == s.subrange(i, s.len() as int),
    decreases s.len() - i,
{
    if i < s.len() {
        if i + pat.len() <= s.len() && s.subrange(i, i + pat.len()) == pat {
            lemma_replace_same(s, pat, i + pat.len());
            assert(s.subrange(i, i + pat.len()) + s.subrange(i + pat.len(), s.len() as int)
                =~= s.subrange(i, s.len() as int));
        } else {
            lemma_replace_same(s, pat, i + 1);
            assert(seq![s[i]] + s.subrange(i + 1, s.len() as int) =~= s.subrange(
                i,
                s.len() as int,
            ));
        }
    } else {
        assert(s.subrange(i, s.len() as int) =~= Seq::<char>::empty());
    }
}

/// Replacing a non-empty text by itself changes nothing.
pub proof fn replace_by_itself_is_identity(s: Seq<char>, pat: Seq<char>)
    requires
        pat.len() > 0,
    ensures
        replace_all(s, pat, pat) == s,
{
    lemma_replace_same(s, pat, 0);
    assert(s.subrange(0, s.len() as int) =~= s);
}

// ---------------------------------------------------------------------------
// Planning
// ---------------------------------------------------------------------------

/// Some other indexed file (not the renamed one, compared ignoring ASCII
/// case) already has the new stem.
pub open spec fn has_collision(new_stem_paths: Seq<Seq<char>>, old_path: Seq<char>) -> bool {
    exists|i: int|
        0 <= i < new_stem_paths.len() && !eq_ignore_ascii_case(
            #[trigger] new_stem_paths[i],
            old_path,
        )
}

/// What a link target becomes when `old_path` (stem `old_stem`) is renamed
/// to `new_path` (stem `new_stem`); `new_stem_paths` are the paths of the
/// indexed files whose stem is the new stem.
pub open spec fn new_target_for(
    target: Seq<char>,
    old_stem: Seq<char>,
    new_stem: Seq<char>,
    old_path: Seq<char>,
    new_path: Seq<char>,
    new_stem_paths: Seq<Seq<char>>,
) -> Seq<char> {
    if eq_ignore_ascii_case(target, old_stem) {
        if has_collision(new_stem_paths, old_path) {
            strip_md(new_path)
        } else {
            new_stem
        }
    } else if eq_ignore_ascii_case(target, strip_md(old_path)) {
        strip_md(new_path)
    } else {
        target
    }
}

pub open spec fn string_views(v: Seq<String>) -> Seq<Seq<char>> {
    v.map_values(|s: String| s@)
}

fn strip_md_string(path: &str) -> (r: String)
    ensures
        r@ == strip_md(path@),
{
    let v = chars_of(path);
    let end = if has_md_suffix(&v) {
        v.len() - 3
    } else {
        v.len()
    };
    let out = slice_chars(&v, 0, end);
    assert(end == v@.len() ==> out@ =~= v@);
    string_from_chars(out.as_slice())
}

/// Determines what the link `target` text should become after `old_path`
/// is renamed to `new_path`.
///
/// - `target` matching `old_stem` → `new_stem`, or the path-qualified new
///   path when another indexed file already has `new_stem`;
/// - `target` matching `old_path` without `.md` → `new_path` without
///   `.md`;
/// - otherwise `target` unchanged.
pub fn determine_new_target(
    target: &str,
    old_stem: &str,
    new_stem: &str,
    old_path: &str,
    new_path: &str,
    new_stem_paths: &Vec<String>,
) -> (r: String)
    ensures
        r@ == new_target_for(
            target@,
            old_stem@,
            new_stem@,
            old_path@,
            new_path@,
            string_views(new_stem_paths@),
        ),
{
    let t = chars_of(target);
    let old_path_chars = chars_of(old_path);
    if chars_eq_ignore_ascii_case(&t, &chars_of(old_stem)) {
        let mut collisions: usize = 0;
        let mut i: usize = 0;
        while i < new_stem_paths.len()
            invariant
                i <= new_stem_paths@.len(),
                old_path_chars@ == old_path@,
                collisions <= i,
                (collisions > 0) == exists|k: int|
                    0 <= k < i && !eq_ignore_ascii_case(
                        #[trigger] string_views(new_stem_paths@)[k],
                        old_path@,
                    ),
            decreases new_stem_paths@.len() - i,
        {
            let p = chars_of(new_stem_paths[i].as_str());
            assert(string_views(new_stem_paths@)[i as int] == new_stem_paths@[i as int]@);
            if !chars_eq_ignore_ascii_case(&p, &old_path_chars) {
                collisions = collisions + 1;
            }
            i = i + 1;
        }
        if collisions > 0 {
            return strip_md_string(new_path);
        }
        return new_stem.to_owned();
    }
    let old_no_ext = chars_of(strip_md_string(old_path).as_str());
    if chars_eq_ignore_ascii_case(&t, &old_no_ext) {
        return strip_md_string(new_path);
    }
    target.to_owned()
}

/// A link that currently resolves to the file being renamed.
#[derive(Debug, Clone)]
pub struct LinkRow {
    /// Path of the file that contains the link.
    pub source_path: String,
    pub target: String,
    pub fragment: Option<String>,
    pub alias: Option<String>,
}

/// The edit a link needs, if any: none when it reaches the file through an
/// alias, or when its target does not change (ignoring ASCII case).
pub open spec fn edit_for(
    row: LinkRow,
    old_path: Seq<char>,
    new_path: Seq<char>,
    aliases: Seq<Seq<char>>,
    new_stem_paths: Seq<Seq<char>>,
) -> Option<EditView> {
    let target = row.target@;
    if exists|k: int| 0 <= k < aliases.len() && eq_ignore_ascii_case(#[trigger] aliases[k], target) {
        None
    } else {
        let nt = new_target_for(
            target,
            path_stem(old_path),
            path_stem(new_path),
            old_path,
            new_path,
            new_stem_paths,
        );
        if eq_ignore_ascii_case(nt, target) {
            None
        } else {
            let before = link_text(target, opt_chars(row.fragment), opt_chars(row.alias));
            let after = link_text(nt, opt_chars(row.fragment), opt_chars(row.alias));
            if before == after {
                None
            } else {
                Some((row.source_path@, before, after))
            }
        }
    }
}

/// The edits for each link, in order.
pub open spec fn raw_edits(
    rows: Seq<LinkRow>,
    old_path: Seq<char>,
    new_path: Seq<char>,
    aliases: Seq<Seq<char>>,
    new_stem_paths: Seq<Seq<char>>,
) -> Seq<EditView>
    decreases rows.len(),
{
    if rows.len() == 0 {
        Seq::empty()
    } else {
        let prev = raw_edits(rows.drop_last(), old_path, new_path, aliases, new_stem_paths);
        match edit_for(rows.last(), old_path, new_path, aliases, new_stem_paths) {
            Some(e) => prev.push(e),
            None => prev,
        }
    }
}

// ---------------------------------------------------------------------------
// Sorted, duplicate-free edit lists
// ---------------------------------------------------------------------------

/// Edits are ordered by file path, then by the text they replace.
pub open spec fn key_lt(a: EditView, b: EditView) -> bool {
    lex_lt(a.0, b.0) || (a.0 == b.0 && lex_lt(a.1, b.1))
}

pub open spec fn same_key(a: EditView, b: EditView) -> bool {
    a.0 == b.0 && a.1 == b.1
}

/// `input[j]` is the first edit of `input` with its key.
pub open spec fn first_of_key(input: Seq<EditView>, j: int) -> bool {
    &&& 0 <= j < input.len()
    &&& forall|m: int| 0 <= m < j ==> !same_key(#[trigger] input[m], input[j])
}

/// `out` is `input` sorted by key with only the first edit of each key
/// kept (a stable sort followed by removal of later duplicates).
pub open spec fn sorted_dedup_of(input: Seq<EditView>, out: Seq<EditView>) -> bool {
    &&& forall|i: int, j: int| 0 <= i < j < out.len() ==> key_lt(out[i], out[j])
    &&& forall|i: int| 0 <= i < out.len() ==> #[trigger] first_edit_of_key(input, out[i])
    &&& forall|j: int| 0 <= j < input.len() ==> #[trigger] key_present(out, input[j])
}

/// `e` is the first edit of `input` with its key.
pub open spec fn first_edit_of_key(input: Seq<EditView>, e: EditView) -> bool {
    exists|j: int| first_of_key(input, j) && e == #[trigger] input[j]
}

/// Some edit of `out` has the key of `e`.
pub open spec fn key_present(out: Seq<EditView>, e: EditView) -> bool {
    exists|i: int| 0 <= i < out.len() && same_key(#[trigger] out[i], e)
}

proof fn lemma_key_transitive(a: EditView, b: EditView, c: EditView)
    requires
        key_lt(a, b),
        key_lt(b, c),
    ensures
        key_lt(a, c),
{
    if lex_lt(a.0, b.0) && lex_lt(b.0, c.0) {
        lemma_lex_transitive(a.0, b.0, c.0);
    } else if a.0 == b.0 && b.0 == c.0 {
        lemma_lex_transitive(a.1, b.1, c.1);
    }
}

proof fn lemma_key_total(a: EditView, b: EditView)
    ensures
        same_key(a, b) || key_lt(a, b) || key_lt(b, a),
{
    lemma_lex_total(a.0, b.0);
    lemma_lex_total(a.1, b.1);
}

proof fn lemma_key_irreflexive(a: EditView, b: EditView)
    requires
        same_key(a, b),
    ensures
        !key_lt(a, b),
{
    lemma_lex_irreflexive(a.0);
    lemma_lex_irreflexive(a.1);
}

fn edit_key_less(a: &RenameEdit, b: &RenameEdit) -> (r: bool)
    ensures
        r == key_lt(a.view3(), b.view3()),
{
    let af = chars_of(a.file_path.as_str());
    let bf = chars_of(b.file_path.as_str());
    if lex_less(&af, &bf) {
        return true;
    }
    if !chars_equal(&af, &bf) {
        return false;
    }
    lex_less(&chars_of(a.before.as_str()), &chars_of(b.before.as_str()))
}

fn edit_same_key(a: &RenameEdit, b: &RenameEdit) -> (r: bool)
    ensures
        r == same_key(a.view3(), b.view3()),
{
    chars_equal(&chars_of(a.file_path.as_str()), &chars_of(b.file_path.as_str())) && chars_equal(
        &chars_of(a.before.as_str()),
        &chars_of(b.before.as_str()),
    )
}

fn copy_edit(e: &RenameEdit) -> (r: RenameEdit)
    ensures
        r.view3() == e.view3(),
{
    RenameEdit { file_path: e.file_path.clone(), before: e.before.clone(), after: e.after.clone() }
}

/// Sorts edits by `(file_path, before)` and keeps the first edit of each
/// such pair.
pub fn dedup_edits(edits: &Vec<RenameEdit>) -> (r: Vec<RenameEdit>)
    ensures
        sorted_dedup_of(edit_views(edits@), edit_views(r@)),
{
    let ghost input = edit_views(edits@);
    let mut acc: Vec<RenameEdit> = Vec::new();
    let mut k: usize = 0;
    while k < edits.len()
        invariant
            k <= edits@.len(),
            input == edit_views(edits@),
            sorted_dedup_of(input.take(k as int), edit_views(acc@)),
        decreases edits@.len() - k,
    {
        let e = &edits[k];
        let ghost ev = e.view3();
        let ghost av = edit_views(acc@);
        let ghost pre = input.take(k as int);
        let ghost post = input.take(k + 1);
        assert(post =~= pre.push(ev));
        let mut p: usize = 0;
        while p < acc.len() && edit_key_less(&acc[p], e)
            invariant
                p <= acc@.len(),
                av == edit_views(acc@),
                ev == e.view3(),
                forall|q: int| 0 <= q < p ==> key_lt(#[trigger] av[q], ev),
            decreases acc@.len() - p,
        {
            p = p + 1;
        }
        let found = p < acc.len() && edit_same_key(&acc[p], e);
        if found {
            proof {
                assert forall|i: int| 0 <= i < av.len() implies #[trigger] first_edit_of_key(
                    post,
                    av[i],
                ) by {
                    assert(first_edit_of_key(pre, av[i]));
                    let j = choose|j: int| first_of_key(pre, j) && av[i] == pre[j];
                    assert(first_of_key(post, j));
                    assert(av[i] == post[j]);
                }
                assert forall|j: int| 0 <= j < post.len() implies #[trigger] key_present(
                    av,
                    post[j],
                ) by {
                    if j == k {
                        assert(same_key(av[p as int], post[j]));
                    } else {
                        assert(post[j] == pre[j]);
                        assert(key_present(av, pre[j]));
                    }
                }
                assert(sorted_dedup_of(post, av));
            }
        } else {
            proof {
                // No accumulated edit has the key of `e`.
                assert forall|i: int| 0 <= i < av.len() implies !same_key(#[trigger] av[i], ev) by {
                    if same_key(av[i], ev) {
                        if i < p {
                            lemma_key_irreflexive(av[i], ev);
                        } else if i > p {
                            lemma_key_total(av[p as int], ev);
                            assert(key_lt(av[p as int], av[i]));
                            lemma_key_irreflexive(av[i], ev);
                        }
                    }
                }
                assert forall|m: int| 0 <= m < pre.len() implies !same_key(#[trigger] pre[m], ev) by {
                    assert(key_present(av, pre[m]));
                    let i = choose|i: int| 0 <= i < av.len() && same_key(av[i], pre[m]);
                    if same_key(pre[m], ev) {
                        assert(same_key(av[i], ev));
                    }
                }
            }
            acc.insert(p, copy_edit(e));
            proof {
                let nv = edit_views(acc@);
                assert(nv =~= av.insert(p as int, ev));
                assert forall|i: int, j: int| 0 <= i < j < nv.len() implies key_lt(nv[i], nv[j]) by {
                    if j < p {
                        assert(nv[i] == av[i] && nv[j] == av[j]);
                    } else if j == p {
                        assert(nv[i] == av[i]);
                    } else if i < p {
                        assert(nv[j] == av[j - 1]);
                        assert(nv[i] == av[i]);
                        if j - 1 == p {
                            lemma_key_total(av[p as int], ev);
                            lemma_key_transitive(av[i], ev, av[p as int]);
                        } else {
                            lemma_key_total(av[p as int], ev);
                            lemma_key_transitive(ev, av[p as int], av[j - 1]);
                            lemma_key_transitive(av[i], ev, av[j - 1]);
                        }
                    } else if i == p {
                        assert(nv[j] == av[j - 1]);
                        lemma_key_total(av[p as int], ev);
                        if j - 1 > p {
                            lemma_key_transitive(ev, av[p as int], av[j - 1]);
                        }
                    } else {
                        assert(nv[i] == av[i - 1] && nv[j] == av[j - 1]);
                    }
                }
                assert forall|i: int| 0 <= i < nv.len() implies #[trigger] first_edit_of_key(
                    post,
                    nv[i],
                ) by {
                    if i == p {
                        assert(first_of_key(post, k as int));
                        assert(nv[i] == post[k as int]);
                    } else {
                        let ii = if i < p {
                            i
                        } else {
                            i - 1
                        };
                        assert(nv[i] == av[ii]);
                        assert(first_edit_of_key(pre, av[ii]));
                        let j = choose|j: int| first_of_key(pre, j) && av[ii] == pre[j];
                        assert(first_of_key(post, j));
                        assert(nv[i] == post[j]);
                    }
                }
                assert forall|j: int| 0 <= j < post.len() implies #[trigger] key_present(
                    nv,
                    post[j],
                ) by {
                    if j == k {
                        assert(same_key(nv[p as int], post[j]));
                    } else {
                        assert(post[j] == pre[j]);
                        assert(key_present(av, pre[j]));
                        let i = choose|i: int| 0 <= i < av.len() && same_key(av[i], pre[j]);
                        if i < p {
                            assert(nv[i] == av[i]);
                            assert(same_key(nv[i], post[j]));
                        } else {
                            assert(nv[i + 1] == av[i]);
                            assert(same_key(nv[i + 1], post[j]));
                        }
                    }
                }
                assert(sorted_dedup_of(post, nv));
            }
        }
        k = k + 1;
    }
    assert(input.take(k as int) =~= input);
    acc
}

/// Computes the link rewrites for renaming the file at `old_path` to
/// `new_path`, given the file's aliases, the links that currently resolve
/// to it, and the paths of the indexed files whose stem is the new stem.
pub fn plan_file_edits(
    old_path: &str,
    new_path: &str,
    aliases: &Vec<String>,
    links: &Vec<LinkRow>,
    new_stem_paths: &Vec<String>,
) -> (r: Vec<RenameEdit>)
    ensures
        sorted_dedup_of(
            raw_edits(
                links@,
                old_path@,
                new_path@,
                string_views(aliases@),
                string_views(new_stem_paths@),
            ),
            edit_views(r@),
        ),
{
    let old_stem = stem_from_path(old_path);
    let new_stem = stem_from_path(new_path);
    let ghost als = string_views(aliases@);
    let ghost nsp = string_views(new_stem_paths@);
    let mut edits: Vec<RenameEdit> = Vec::new();
    let mut i: usize = 0;
    assert(links@.take(0) =~= Seq::<LinkRow>::empty());
    assert(edit_views(edits@) =~= Seq::<EditView>::empty());
    while i < links.len()
        invariant
            i <= links@.len(),
            old_stem@ == path_stem(old_path@),
            new_stem@ == path_stem(new_path@),
            als == string_views(aliases@),
            nsp == string_views(new_stem_paths@),
            edit_views(edits@) == raw_edits(links@.take(i as int), old_path@, new_path@, als, nsp),
        decreases links@.len() - i,
    {
        let row = &links[i];
        let target = chars_of(row.target.as_str());
        let ghost before_edits = edit_views(edits@);
        assert(links@.take(i + 1).drop_last() =~= links@.take(i as int));
        assert(links@.take(i + 1).last() == links@[i as int]);
        // Links that reach the file through an alias stay valid.
        let mut via_alias = false;
        let mut a: usize = 0;
        while a < aliases.len()
            invariant
                a <= aliases@.len(),
                als == string_views(aliases@),
                target@ == row.target@,
                via_alias == exists|k: int|
                    0 <= k < a && eq_ignore_ascii_case(#[trigger] als[k], target@),
            decreases aliases@.len() - a,
        {
            assert(als[a as int] == aliases@[a as int]@);
            if chars_eq_ignore_ascii_case(&chars_of(aliases[a].as_str()), &target) {
                via_alias = true;
            }
            a = a + 1;
        }
        if !via_alias {
            let new_target = determine_new_target(
                row.target.as_str(),
                old_stem.as_str(),
                new_stem.as_str(),
                old_path,
                new_path,
                new_stem_paths,
            );
            if !chars_eq_ignore_ascii_case(&chars_of(new_target.as_str()), &target) {
                let frag = match &row.fragment {
                    Some(f) => Some(f.as_str()),
                    None => None,
                };
                let al = match &row.alias {
                    Some(x) => Some(x.as_str()),
                    None => None,
                };
                let before = format_wiki_link(row.target.as_str(), frag, al);
                let after = format_wiki_link(new_target.as_str(), frag, al);
                if !chars_equal(&chars_of(before.as_str()), &chars_of(after.as_str())) {
                    edits.push(RenameEdit { file_path: row.source_path.clone(), before, after });
                    assert(edit_views(edits@) =~= before_edits.push(
                        (row.source_path@, before@, after@),
                    ));
                }
            }
        }
        i = i + 1;
    }
    assert(links@.take(i as int) =~= links@);
    dedup_edits(&edits)
}

/// Returns a directory prefix string with exactly one trailing slash.
pub fn normalize_dir_prefix(dir: &str) -> (r: String)
    ensures
        r@ == crate::text::trim_end_set(dir@, CharSet::Is('/')).push('/'),
{
    let v = chars_of(dir);
    let end = skip_backward(&v, 0, v.len(), CharSet::Is('/'));
    assert(v@.subrange(0, v@.len() as int) =~= v@);
    let mut out = slice_chars(&v, 0, end);
    out.push('/');
    string_from_chars(out.as_slice())
}

/// The new path of a file inside a renamed directory: the new prefix
/// followed by the part of the path after the old prefix.
pub fn moved_path(path: &str, old_prefix: &str, new_prefix: &str) -> (r: String)
    requires
        old_prefix@.len() <= path@.len(),
    ensures
        r@ == new_prefix@ + path@.subrange(old_prefix@.len() as int, path@.len() as int),
{
    let p = chars_of(path);
    let n = chars_of(old_prefix).len();
    let mut out = chars_of(new_prefix);
    let suffix = slice_chars(&p, n, p.len());
    append_chars(&mut out, &suffix);
    string_from_chars(out.as_slice())
}

/// Whether a plan is for a single note (a `.md` path) rather than a folder.
pub fn is_file_rename(old_path: &str) -> (r: bool)
    ensures
        r == ends_with(old_path@, md_suffix()),
{
    has_md_suffix(&chars_of(old_path))
}

// ---------------------------------------------------------------------------
// Applying a plan
// ---------------------------------------------------------------------------

/// Whether two edit lists are the same, edit for edit.
pub fn same_edits(a: &Vec<RenameEdit>, b: &Vec<RenameEdit>) -> (r: bool)
    ensures
        r == (edit_views(a@) == edit_views(b@)),
{
    if a.len() != b.len() {
        assert(edit_views(a@).len() != edit_views(b@).len());
        return false;
    }
    let mut i: usize = 0;
    while i < a.len()
        invariant
            a@.len() == b@.len(),
            i <= a@.len(),
            forall|k: int| 0 <= k < i ==> edit_views(a@)[k] == edit_views(b@)[k],
        decreases a@.len() - i,
    {
        let x = &a[i];
        let y = &b[i];
        if !chars_equal(&chars_of(x.file_path.as_str()), &chars_of(y.file_path.as_str()))
            || !chars_equal(&chars_of(x.before.as_str()), &chars_of(y.before.as_str()))
            || !chars_equal(&chars_of(x.after.as_str()), &chars_of(y.after.as_str())) {
            assert(edit_views(a@)[i as int] != edit_views(b@)[i as int]);
            return false;
        }
        assert(edit_views(a@)[i as int] == edit_views(b@)[i as int]);
        i = i + 1;
    }
    assert(edit_views(a@) =~= edit_views(b@));
    true
}

/// The files named by `edits`, each once, in the order they first occur.
pub open spec fn edited_files(s: Seq<EditView>) -> Seq<Seq<char>>
    decreases s.len(),
{
    if s.len() == 0 {
        Seq::empty()
    } else {
        crate::neighborhood::add_once(edited_files(s.drop_last()), s.last().0)
    }
}

/// The files a plan rewrites, each once, in the order of its edits.
pub fn files_to_rewrite(edits: &Vec<RenameEdit>) -> (r: Vec<String>)
    ensures
        r@.map_values(|s: String| s@) == edited_files(edit_views(edits@)),
{
    let ghost ev = edit_views(edits@);
    let mut out: Vec<String> = Vec::new();
    let mut k: usize = 0;
    assert(ev.take(0) =~= Seq::<EditView>::empty());
    assert(out@.map_values(|s: String| s@) =~= Seq::<Seq<char>>::empty());
    while k < edits.len()
        invariant
            k <= edits@.len(),
            ev == edit_views(edits@),
            out@.map_values(|s: String| s@) == edited_files(ev.take(k as int)),
        decreases edits@.len() - k,
    {
        let ghost ov = out@.map_values(|s: String| s@);
        assert(ev.take(k + 1).drop_last() =~= ev.take(k as int));
        assert(ev.take(k + 1).last() == ev[k as int]);
        let f = chars_of(edits[k].file_path.as_str());
        let found = crate::neighborhood::contains_id(&out, &f);
        if !found {
            out.push(edits[k].file_path.clone());
            assert(out@.map_values(|s: String| s@) =~= ov.push(f@));
        }
        k = k + 1;
    }
    assert(ev.take(k as int) =~= ev);
    out
}

} // verus!
