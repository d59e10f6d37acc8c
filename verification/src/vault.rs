//! Vault rules: relative-path validation, the file tree shown in the
//! sidebar, note titles, and the checks and bookkeeping of a rename.

use vstd::prelude::*;
use crate::markdown::ParsedNote;
use crate::order::{chars_equal, lex_less, lex_lt, lemma_lex_total, lemma_lex_transitive, lemma_lex_irreflexive};
use crate::paths::{is_markdown_path, is_markdown, file_stem_or_path, stem_or_path, ends_with, md_suffix, has_md_suffix, starts_with};
use crate::rename::RenameEdit;
use crate::resolve::{split_slash_from, find_char, lemma_find_char};
use crate::text::{chars_of, is_ws, lowercase, slice_chars, string_from_chars, to_lowercase, trim, trim_end_set, trim_start, trim_start_set, trimmed_string, append_chars, CharSet};

verus! {

/// The result of an applied rename.
#[derive(Debug, Clone, PartialEq, Eq)]
pub struct RenameOutcome {
    pub old_path: String,
    pub new_path: String,
    pub changed_paths: Vec<String>,
}

/// A file or directory entry in the vault tree.
#[derive(Debug)]
pub struct VaultTreeEntry {
    /// Vault-relative path (forward slashes).
    pub path: String,
    /// Display name (filename component only).
    pub name: String,
    /// `true` if this entry is a directory.
    pub is_dir: bool,
    /// `true` if this entry is a markdown file.
    pub is_markdown: bool,
    /// Child entries — populated for directories, empty for files.
    pub children: Vec<VaultTreeEntry>,
}

/// One entry of a directory read: its name and whether it is a directory.
#[derive(Debug, Clone)]
pub struct DirEntryInfo {
    pub name: String,
    pub is_dir: bool,
}

// ---------------------------------------------------------------------------
// Relative paths
// ---------------------------------------------------------------------------

/// Why a vault-relative path was refused.
#[derive(Debug, Clone, Copy, PartialEq, Eq)]
pub enum RelPathError {
    /// The path is blank.
    Empty,
    /// The path has an empty segment (`a//b`, a leading or trailing `/`).
    EmptySegment,
    /// The path has a `.` or `..` segment.
    Navigation,
}

impl RelPathError {
    /// The message shown for the error; `rel_path` is the path as given.
    pub fn message(&self, rel_path: &str) -> (r: String)
        ensures
            r@ == match self {
                RelPathError::Empty => "path cannot be empty"@,
                RelPathError::EmptySegment => "path cannot contain empty segments"@,
                RelPathError::Navigation => "path cannot contain navigation segments: "@ + rel_path@,
            },
            r@.len() > 0,
    {
        let text = match self {
            RelPathError::Empty => "path cannot be empty",
            RelPathError::EmptySegment => "path cannot contain empty segments",
            RelPathError::Navigation => "path cannot contain navigation segments: ",
        };
        let mut out = chars_of(text);
        if let RelPathError::Navigation = self {
            append_chars(&mut out, &chars_of(rel_path));
        }
        proof {
            reveal_strlit("path cannot be empty");
            reveal_strlit("path cannot contain empty segments");
            reveal_strlit("path cannot contain navigation segments: ");
        }
        string_from_chars(out.as_slice())
    }
}

/// `s` with every `\` replaced by `/`.
pub open spec fn forward_slashes(s: Seq<char>) -> Seq<char> {
    s.map_values(|c: char| if c == '\\' { '/' } else { c })
}

/// The first refused segment among `pieces[k..]`, if any.
pub open spec fn first_bad_segment(pieces: Seq<Seq<char>>, k: int) -> Option<RelPathError>
    decreases pieces.len() - k,
{
    if k < 0 || k >= pieces.len() {
        None
    } else if pieces[k].len() == 0 {
        Some(RelPathError::EmptySegment)
    } else if pieces[k] == seq!['.'] || pieces[k] == seq!['.', '.'] {
        Some(RelPathError::Navigation)
    } else {
        first_bad_segment(pieces, k + 1)
    }
}

/// The normal form of a vault-relative path: trimmed, with forward
/// slashes; refused when blank or when a segment is empty, `.` or `..`
/// (the first such segment decides the error).
pub open spec fn normalized_rel_path(rel_path: Seq<char>) -> Result<Seq<char>, RelPathError> {
    let rel = forward_slashes(trim(rel_path));
    if rel.len() == 0 {
        Err(RelPathError::Empty)
    } else {
        match first_bad_segment(split_slash_from(rel, 0), 0) {
            Some(e) => Err(e),
            None => Ok(rel),
        }
    }
}

proof fn lemma_trim_start_edge(s: Seq<char>, set: CharSet)
    ensures
        trim_start_set(s, set).len() > 0 ==> !set.holds(trim_start_set(s, set)[0]),
        trim_start_set(s, set).len() <= s.len(),
        trim_start_set(s, set) == s.subrange(s.len() - trim_start_set(s, set).len(), s.len() as int),
    decreases s.len(),
{
    if s.len() > 0 && set.holds(s[0]) {
        lemma_trim_start_edge(s.drop_first(), set);
        let t = trim_start_set(s.drop_first(), set);
        assert(s.drop_first().subrange(s.drop_first().len() - t.len(), s.drop_first().len() as int)
            =~= s.subrange(s.len() - t.len(), s.len() as int));
    } else {
        assert(s.subrange(0, s.len() as int) =~= s);
    }
}

proof fn lemma_trim_end_edge(s: Seq<char>, set: CharSet)
    ensures
        trim_end_set(s, set).len() > 0 ==> !set.holds(trim_end_set(s, set).last()),
        trim_end_set(s, set) == s.subrange(0, trim_end_set(s, set).len() as int),
        trim_end_set(s, set).len() <= s.len(),
    decreases s.len(),
{
    if s.len() > 0 && set.holds(s.last()) {
        lemma_trim_end_edge(s.drop_last(), set);
        let t = trim_end_set(s.drop_last(), set);
        assert(s.drop_last().subrange(0, t.len() as int) =~= s.subrange(0, t.len() as int));
    } else {
        assert(s.subrange(0, s.len() as int) =~= s);
    }
}

proof fn lemma_trim_of_trimmed(p: Seq<char>)
    requires
        p.len() > 0,
        !is_ws(p[0]),
        !is_ws(p.last()),
    ensures
        trim(p) == p,
{
    assert(trim_start_set(p, CharSet::Ws) == p);
    assert(trim_end_set(p, CharSet::Ws) == p);
}

/// A normalised path is its own normal form: normalising a path that
/// normalisation accepted gives the same path back.
pub proof fn normalized_rel_path_is_stable(rel_path: Seq<char>)
    requires
        normalized_rel_path(rel_path) is Ok,
    ensures
        normalized_rel_path(normalized_rel_path(rel_path)->Ok_0) == normalized_rel_path(rel_path),
{
    let t = trim(rel_path);
    let p = forward_slashes(t);
    lemma_trim_start_edge(rel_path, CharSet::Ws);
    lemma_trim_end_edge(trim_start(rel_path), CharSet::Ws);
    let ts = trim_start(rel_path);
    assert(t.len() > 0);
    assert(t[0] == ts[0]);
    assert(!is_ws(t[0]));
    assert(!is_ws(t.last()));
    assert(p[0] == (if t[0] == '\\' { '/' } else { t[0] }));
    assert(p.last() == p[p.len() - 1]);
    assert(p[p.len() - 1] == (if t.last() == '\\' { '/' } else { t.last() }));
    lemma_trim_of_trimmed(p);
    assert(forward_slashes(p) =~= p);
}

fn segment_error(v: &Vec<char>, a: usize, b: usize) -> (r: Option<RelPathError>)
    requires
        a <= b <= v@.len(),
    ensures
        r == (if v@.subrange(a as int, b as int).len() == 0 {
            Some(RelPathError::EmptySegment)
        } else if v@.subrange(a as int, b as int) == seq!['.'] || v@.subrange(a as int, b as int)
            == seq!['.', '.'] {
            Some(RelPathError::Navigation)
        } else {
            None
        }),
{
    let ghost piece = v@.subrange(a as int, b as int);
    if a == b {
        return Some(RelPathError::EmptySegment);
    }
    let one = b - a == 1 && v[a] == '.';
    let two = b - a == 2 && v[a] == '.' && v[a + 1] == '.';
    proof {
        let d1 = seq!['.'];
        let d2 = seq!['.', '.'];
        assert(d1.len() == 1 && d1[0] == '.');
        assert(d2.len() == 2 && d2[0] == '.' && d2[1] == '.');
        if b - a == 1 {
            assert(piece[0] == v@[a as int]);
            if one {
                assert(piece =~= d1);
            }
        }
        if b - a == 2 {
            assert(piece[0] == v@[a as int]);
            assert(piece[1] == v@[a + 1]);
            if two {
                assert(piece =~= d2);
            }
        }
    }
    if one || two {
        Some(RelPathError::Navigation)
    } else {
        None
    }
}

/// Normalises a vault-relative path, refusing blank paths and paths with
/// empty, `.` or `..` segments.
pub fn normalize_rel_path(rel_path: &str) -> (r: Result<String, RelPathError>)
    ensures
        match (r, normalized_rel_path(rel_path@)) {
            (Ok(s), Ok(t)) => s@ == t,
            (Err(e), Err(f)) => e == f,
            _ => false,
        },
{
    let v = chars_of(rel_path);
    let trimmed = chars_of(trimmed_string(&v, 0, v.len()).as_str());
    assert(v@.subrange(0, v@.len() as int) =~= v@);
    let mut rel: Vec<char> = Vec::new();
    let mut i: usize = 0;
    while i < trimmed.len()
        invariant
            i <= trimmed@.len(),
            rel@ == forward_slashes(trimmed@).take(i as int),
        decreases trimmed@.len() - i,
    {
        let c = trimmed[i];
        rel.push(if c == '\\' { '/' } else { c });
        assert(rel@ =~= forward_slashes(trimmed@).take(i + 1));
        i = i + 1;
    }
    assert(forward_slashes(trimmed@).take(i as int) =~= forward_slashes(trimmed@));
    if rel.len() == 0 {
        return Err(RelPathError::Empty);
    }
    let ghost pieces = split_slash_from(rel@, 0);
    let mut start: usize = 0;
    let ghost mut k: int = 0;
    loop
        invariant
            start <= rel@.len(),
            rel@.len() > 0,
            rel@ == forward_slashes(trim(rel_path@)),
            pieces == split_slash_from(rel@, 0),
            first_bad_segment(pieces, 0) == first_bad_segment(split_slash_from(rel@, start as int), 0),
        decreases rel@.len() - start,
    {
        let mut j = start;
        proof {
            lemma_find_char(rel@, start as int, '/');
        }
        while j < rel.len() && rel[j] != '/'
            invariant
                start <= j <= rel@.len(),
                find_char(rel@, j as int, '/') == find_char(rel@, start as int, '/'),
            decreases rel@.len() - j,
        {
            j = j + 1;
        }
        let ghost rest = split_slash_from(rel@, start as int);
        if j < rel.len() {
            assert(rest == seq![rel@.subrange(start as int, j as int)] + split_slash_from(rel@, j + 1));
        } else {
            assert(rest == seq![rel@.subrange(start as int, rel@.len() as int)]);
        }
        assert(rest[0] == rel@.subrange(start as int, j as int));
        match segment_error(&rel, start, j) {
            Some(e) => {
                return Err(e);
            },
            None => {},
        }
        if j >= rel.len() {
            assert(first_bad_segment(rest, 1) == None::<RelPathError>);
            return Ok(string_from_chars(rel.as_slice()));
        }
        proof {
            let tail = split_slash_from(rel@, j + 1);
            assert forall|m: int| 1 <= m <= rest.len() implies first_bad_segment(rest, m)
                == first_bad_segment(tail, m - 1) by {
                lemma_first_bad_shift(rest, tail, m);
            }
        }
        start = j + 1;
    }
}

proof fn lemma_first_bad_shift(rest: Seq<Seq<char>>, tail: Seq<Seq<char>>, m: int)
    requires
        rest.len() == tail.len() + 1,
        forall|i: int| 0 <= i < tail.len() ==> rest[i + 1] == tail[i],
        1 <= m <= rest.len(),
    ensures
        first_bad_segment(rest, m) == first_bad_segment(tail, m - 1),
    decreases rest.len() - m,
{
    if m < rest.len() {
        lemma_first_bad_shift(rest, tail, m + 1);
    }
}

// ---------------------------------------------------------------------------
// Titles
// ---------------------------------------------------------------------------

/// A note's display title: the trimmed frontmatter title when present and
/// not blank, else the file stem of its path (or the path itself).
pub open spec fn title_choice(title: Option<Seq<char>>, rel_path: Seq<char>) -> Seq<char> {
    match title {
        Some(t) => if trim(t).len() > 0 {
            trim(t)
        } else {
            stem_or_path(rel_path)
        },
        None => stem_or_path(rel_path),
    }
}

/// Picks a note's display title from its frontmatter title.
pub fn title_for(rel_path: &str, title: Option<String>) -> (r: String)
    ensures
        r@ == title_choice(crate::text::opt_chars(title), rel_path@),
{
    if let Some(t) = title {
        let v = chars_of(t.as_str());
        let (a, b) = crate::text::trim_bounds(&v, 0, v.len());
        assert(v@.subrange(0, v@.len() as int) =~= v@);
        if a < b {
            let out = slice_chars(&v, a, b);
            return string_from_chars(out.as_slice());
        }
    }
    file_stem_or_path(rel_path)
}

/// Best-effort display title for a note: the frontmatter title, else the
/// filename stem.
pub fn note_title(rel_path: &str, note: &ParsedNote) -> (r: String)
    ensures
        r@ == title_choice(crate::text::opt_chars(note.title), rel_path@),
{
    let t = crate::text::copy_opt_string(&note.title);
    title_for(rel_path, t)
}

// ---------------------------------------------------------------------------
// The tree
// ---------------------------------------------------------------------------

/// Entries whose name starts with `.` are hidden.
pub open spec fn is_hidden(name: Seq<char>) -> bool {
    name.len() > 0 && name[0] == '.'
}

pub fn is_hidden_name(name: &str) -> (r: bool)
    ensures
        r == is_hidden(name@),
{
    let v = chars_of(name);
    v.len() > 0 && v[0] == '.'
}

/// Entry names sort case-insensitively (by their lower-case forms), then
/// by the names themselves.
pub open spec fn name_lt(a: Seq<char>, b: Seq<char>) -> bool {
    lex_lt(lowercase(a), lowercase(b)) || (lowercase(a) == lowercase(b) && lex_lt(a, b))
}

fn name_less(a: &String, b: &String) -> (r: bool)
    ensures
        r == name_lt(a@, b@),
{
    let la = chars_of(to_lowercase(a.as_str()).as_str());
    let lb = chars_of(to_lowercase(b.as_str()).as_str());
    if lex_less(&la, &lb) {
        return true;
    }
    if !chars_equal(&la, &lb) {
        return false;
    }
    lex_less(&chars_of(a.as_str()), &chars_of(b.as_str()))
}

/// Orders two entry names as the sidebar lists them.
pub fn compare_entry_names(a: &str, b: &str) -> (r: std::cmp::Ordering)
    ensures
        (r == std::cmp::Ordering::Less) == name_lt(a@, b@),
        (r == std::cmp::Ordering::Greater) == name_lt(b@, a@),
{
    let sa = a.to_owned();
    let sb = b.to_owned();
    if name_less(&sa, &sb) {
        proof {
            lemma_lex_asym_names(a@, b@);
        }
        std::cmp::Ordering::Less
    } else if name_less(&sb, &sa) {
        std::cmp::Ordering::Greater
    } else {
        std::cmp::Ordering::Equal
    }
}

proof fn lemma_lex_asym_names(a: Seq<char>, b: Seq<char>)
    ensures
        name_lt(a, b) ==> !name_lt(b, a),
{
    crate::order::lemma_lex_asymmetric(lowercase(a), lowercase(b));
    crate::order::lemma_lex_asymmetric(a, b);
}

/// The path of an entry named `name` inside the directory `parent` (the
/// vault root when `parent` is empty).
pub open spec fn child_path(parent: Seq<char>, name: Seq<char>) -> Seq<char> {
    if parent.len() == 0 {
        name
    } else {
        parent + seq!['/'] + name
    }
}

/// Inserts an entry after every entry that does not sort after it.
pub open spec fn insert_by_name(s: Seq<(Seq<char>, bool)>, x: (Seq<char>, bool)) -> Seq<
    (Seq<char>, bool),
>
    decreases s.len(),
{
    if s.len() == 0 {
        seq![x]
    } else if !name_lt(x.0, s.last().0) {
        s.push(x)
    } else {
        insert_by_name(s.drop_last(), x).push(s.last())
    }
}

/// A stable sort of entries by name.
pub open spec fn sort_by_name(s: Seq<(Seq<char>, bool)>) -> Seq<(Seq<char>, bool)>
    decreases s.len(),
{
    if s.len() == 0 {
        Seq::empty()
    } else {
        insert_by_name(sort_by_name(s.drop_last()), s.last())
    }
}

/// The visible entries of `s` that are directories (`dirs`) or files
/// (`!dirs`), in order.
pub open spec fn visible_of_kind(s: Seq<(Seq<char>, bool)>, dirs: bool) -> Seq<(Seq<char>, bool)>
    decreases s.len(),
{
    if s.len() == 0 {
        Seq::empty()
    } else if !is_hidden(s.last().0) && s.last().1 == dirs {
        visible_of_kind(s.drop_last(), dirs).push(s.last())
    } else {
        visible_of_kind(s.drop_last(), dirs)
    }
}

/// The entries a directory shows: visible ones sorted by name, directories
/// first, then files.
pub open spec fn shown_entries(s: Seq<(Seq<char>, bool)>) -> Seq<(Seq<char>, bool)> {
    let sorted = sort_by_name(s);
    visible_of_kind(sorted, true) + visible_of_kind(sorted, false)
}

pub open spec fn entry_infos(v: Seq<DirEntryInfo>) -> Seq<(Seq<char>, bool)> {
    v.map_values(|e: DirEntryInfo| (e.name@, e.is_dir))
}

/// A tree entry as plain values: path, name, kind, markdown flag and
/// number of children.
pub open spec fn tree_view(e: VaultTreeEntry) -> (Seq<char>, Seq<char>, bool, bool, nat) {
    (e.path@, e.name@, e.is_dir, e.is_markdown, e.children@.len())
}

/// The entry shown for `(name, is_dir)` inside directory `parent`, before
/// its children are read.
pub open spec fn shown_entry(parent: Seq<char>, x: (Seq<char>, bool)) -> (
    Seq<char>,
    Seq<char>,
    bool,
    bool,
    nat,
) {
    (child_path(parent, x.0), x.0, x.1, !x.1 && is_markdown_path(x.0), 0)
}

proof fn lemma_insert_by_name(s: Seq<(Seq<char>, bool)>, x: (Seq<char>, bool), p: int)
    requires
        0 <= p <= s.len(),
        forall|k: int| p <= k < s.len() ==> name_lt(x.0, (#[trigger] s[k]).0),
        p > 0 ==> !name_lt(x.0, s[p - 1].0),
    ensures
        insert_by_name(s, x) == s.insert(p, x),
    decreases s.len(),
{
    if s.len() == 0 {
        assert(s.insert(p, x) =~= seq![x]);
    } else if p == s.len() {
        assert(s.insert(p, x) =~= s.push(x));
    } else {
        let init = s.drop_last();
        assert forall|k: int| p <= k < init.len() implies name_lt(x.0, (#[trigger] init[k]).0) by {
            assert(init[k] == s[k]);
        }
        if p > 0 {
            assert(init[p - 1] == s[p - 1]);
        }
        lemma_insert_by_name(init, x, p);
        assert(init.insert(p, x).push(s.last()) =~= s.insert(p, x));
    }
}

fn copy_info(e: &DirEntryInfo) -> (r: DirEntryInfo)
    ensures
        r.name@ == e.name@,
        r.is_dir == e.is_dir,
{
    DirEntryInfo { name: e.name.clone(), is_dir: e.is_dir }
}

/// The entries of one directory as the sidebar shows them: hidden entries
/// (names starting with `.`) dropped, directories first, then files, each
/// group sorted case-insensitively by name. Children are left empty; a
/// directory's own entries are built the same way with its path as
/// `parent`.
pub fn build_level(parent: &str, entries: &Vec<DirEntryInfo>) -> (r: Vec<VaultTreeEntry>)
    ensures
        r@.map_values(|e: VaultTreeEntry| tree_view(e)) == shown_entries(entry_infos(entries@)).map_values(
            |x: (Seq<char>, bool)| shown_entry(parent@, x),
        ),
{
    let ghost infos = entry_infos(entries@);
    // Stable sort by name.
    let mut sorted: Vec<DirEntryInfo> = Vec::new();
    let mut k: usize = 0;
    assert(infos.take(0) =~= Seq::<(Seq<char>, bool)>::empty());
    assert(entry_infos(sorted@) =~= Seq::<(Seq<char>, bool)>::empty());
    while k < entries.len()
        invariant
            k <= entries@.len(),
            infos == entry_infos(entries@),
            entry_infos(sorted@) == sort_by_name(infos.take(k as int)),
        decreases entries@.len() - k,
    {
        let x = &entries[k];
        let ghost sv = entry_infos(sorted@);
        let ghost xv = (x.name@, x.is_dir);
        let mut p = sorted.len();
        while p > 0 && name_less(&x.name, &sorted[p - 1].name)
            invariant
                p <= sorted@.len(),
                sv == entry_infos(sorted@),
                xv == (x.name@, x.is_dir),
                forall|q: int| p <= q < sv.len() ==> name_lt(xv.0, (#[trigger] sv[q]).0),
            decreases p,
        {
            assert(sv[p - 1] == (sorted@[p - 1].name@, sorted@[p - 1].is_dir));
            p = p - 1;
        }
        proof {
            if p > 0 {
                assert(sv[p - 1] == (sorted@[p - 1].name@, sorted@[p - 1].is_dir));
            }
        }
        proof {
            lemma_insert_by_name(sv, xv, p as int);
            assert(infos.take(k + 1).drop_last() =~= infos.take(k as int));
            assert(infos.take(k + 1).last() == xv);
        }
        sorted.insert(p, copy_info(x));
        assert(entry_infos(sorted@) =~= sv.insert(p as int, xv));
        k = k + 1;
    }
    assert(infos.take(k as int) =~= infos);
    let ghost sorted_v = entry_infos(sorted@);
    let pv = chars_of(parent);
    let mut dirs: Vec<VaultTreeEntry> = Vec::new();
    let mut files: Vec<VaultTreeEntry> = Vec::new();
    let mut i: usize = 0;
    assert(sorted_v.take(0) =~= Seq::<(Seq<char>, bool)>::empty());
    assert(dirs@.map_values(|e: VaultTreeEntry| tree_view(e)) =~= Seq::empty());
    assert(files@.map_values(|e: VaultTreeEntry| tree_view(e)) =~= Seq::empty());
    while i < sorted.len()
        invariant
            i <= sorted@.len(),
            sorted_v == entry_infos(sorted@),
            pv@ == parent@,
            dirs@.map_values(|e: VaultTreeEntry| tree_view(e)) == visible_of_kind(
                sorted_v.take(i as int),
                true,
            ).map_values(|x: (Seq<char>, bool)| shown_entry(parent@, x)),
            files@.map_values(|e: VaultTreeEntry| tree_view(e)) == visible_of_kind(
                sorted_v.take(i as int),
                false,
            ).map_values(|x: (Seq<char>, bool)| shown_entry(parent@, x)),
        decreases sorted@.len() - i,
    {
        let e = &sorted[i];
        let ghost xv = (e.name@, e.is_dir);
        assert(sorted_v.take(i + 1).drop_last() =~= sorted_v.take(i as int));
        assert(sorted_v.take(i + 1).last() == xv);
        if !is_hidden_name(e.name.as_str()) {
            let mut path = pv.clone();
            if path.len() > 0 {
                path.push('/');
            }
            let ghost before_path = path@;
            append_chars(&mut path, &chars_of(e.name.as_str()));
            assert(path@ =~= child_path(parent@, e.name@));
            let md = !e.is_dir && is_markdown(e.name.as_str());
            let entry = VaultTreeEntry {
                path: string_from_chars(path.as_slice()),
                name: e.name.clone(),
                is_dir: e.is_dir,
                is_markdown: md,
                children: Vec::new(),
            };
            assert(entry.children@ =~= Seq::<VaultTreeEntry>::empty());
            if e.is_dir {
                let ghost before = dirs@.map_values(|e: VaultTreeEntry| tree_view(e));
                dirs.push(entry);
                assert(dirs@.map_values(|e: VaultTreeEntry| tree_view(e)) =~= before.push(
                    shown_entry(parent@, xv),
                ));
            } else {
                let ghost before = files@.map_values(|e: VaultTreeEntry| tree_view(e));
                files.push(entry);
                assert(files@.map_values(|e: VaultTreeEntry| tree_view(e)) =~= before.push(
                    shown_entry(parent@, xv),
                ));
            }
        }
        i = i + 1;
    }
    assert(sorted_v.take(i as int) =~= sorted_v);
    let ghost dv = dirs@.map_values(|e: VaultTreeEntry| tree_view(e));
    let ghost fv = files@.map_values(|e: VaultTreeEntry| tree_view(e));
    dirs.append(&mut files);
    assert(dirs@.map_values(|e: VaultTreeEntry| tree_view(e)) =~= dv + fv);
    assert(visible_of_kind(sorted_v, true).map_values(|x: (Seq<char>, bool)| shown_entry(parent@, x))
        + visible_of_kind(sorted_v, false).map_values(|x: (Seq<char>, bool)| shown_entry(parent@, x))
        =~= (visible_of_kind(sorted_v, true) + visible_of_kind(sorted_v, false)).map_values(
        |x: (Seq<char>, bool)| shown_entry(parent@, x),
    ));
    dirs
}

/// The top level of the vault tree, from the entries of the vault root.
pub fn build_tree(root_entries: &Vec<DirEntryInfo>) -> (r: Vec<VaultTreeEntry>)
    ensures
        r@.map_values(|e: VaultTreeEntry| tree_view(e)) == shown_entries(
            entry_infos(root_entries@),
        ).map_values(|x: (Seq<char>, bool)| shown_entry(Seq::empty(), x)),
{
    let r = build_level("", root_entries);
    proof {
        reveal_strlit("");
        assert(""@ =~= Seq::<char>::empty());
    }
    r
}

// ---------------------------------------------------------------------------
// Renames
// ---------------------------------------------------------------------------

/// Why a rename was refused (after both paths were accepted as
/// vault-relative paths).
#[derive(Debug, Clone, Copy, PartialEq, Eq)]
pub enum RenameRejection {
    /// The new path equals the old one.
    SameName,
    /// Nothing exists at the old path.
    SourceMissing,
    /// Something already exists at the new path.
    DestinationExists,
    /// A note must keep its `.md` extension, and a folder must not gain one.
    ExtensionMismatch,
}

/// The checks of a rename, in order: a different name, an existing
/// source, a free destination, and a kept kind (files end in `.md`).
pub open spec fn rename_check(
    old_rel: Seq<char>,
    new_rel: Seq<char>,
    old_exists: bool,
    new_exists: bool,
    old_is_file: bool,
) -> Result<(), RenameRejection> {
    if old_rel == new_rel {
        Err(RenameRejection::SameName)
    } else if !old_exists {
        Err(RenameRejection::SourceMissing)
    } else if new_exists {
        Err(RenameRejection::DestinationExists)
    } else if old_is_file != ends_with(new_rel, md_suffix()) {
        Err(RenameRejection::ExtensionMismatch)
    } else {
        Ok(())
    }
}

pub fn check_rename(
    old_rel: &str,
    new_rel: &str,
    old_exists: bool,
    new_exists: bool,
    old_is_file: bool,
) -> (r: Result<(), RenameRejection>)
    ensures
        r == rename_check(old_rel@, new_rel@, old_exists, new_exists, old_is_file),
{
    if chars_equal(&chars_of(old_rel), &chars_of(new_rel)) {
        return Err(RenameRejection::SameName);
    }
    if !old_exists {
        return Err(RenameRejection::SourceMissing);
    }
    if new_exists {
        return Err(RenameRejection::DestinationExists);
    }
    if old_is_file != has_md_suffix(&chars_of(new_rel)) {
        return Err(RenameRejection::ExtensionMismatch);
    }
    Ok(())
}

impl RenameRejection {
    /// The message shown for the rejection; `path` is the old path for a
    /// missing source and the new path for an occupied destination.
    pub fn message(&self, path: &str) -> (r: String)
        ensures
            r@ == match self {
                RenameRejection::SameName => "New name must be different from the current name"@,
                RenameRejection::SourceMissing => "path does not exist: "@ + path@,
                RenameRejection::DestinationExists => "destination already exists: "@ + path@,
                RenameRejection::ExtensionMismatch => "Markdown note renames must keep the .md extension"@,
            },
            r@.len() > 0,
    {
        let (text, with_path) = match self {
            RenameRejection::SameName => ("New name must be different from the current name", false),
            RenameRejection::SourceMissing => ("path does not exist: ", true),
            RenameRejection::DestinationExists => ("destination already exists: ", true),
            RenameRejection::ExtensionMismatch => ("Markdown note renames must keep the .md extension", false),
        };
        let mut out = chars_of(text);
        if with_path {
            append_chars(&mut out, &chars_of(path));
        }
        proof {
            reveal_strlit("New name must be different from the current name");
            reveal_strlit("path does not exist: ");
            reveal_strlit("destination already exists: ");
            reveal_strlit("Markdown note renames must keep the .md extension");
        }
        string_from_chars(out.as_slice())
    }
}

/// `out` lists each path of `input` once, in strictly increasing order.
pub open spec fn sorted_unique_of(input: Seq<Seq<char>>, out: Seq<Seq<char>>) -> bool {
    &&& forall|i: int, j: int| 0 <= i < j < out.len() ==> lex_lt(out[i], out[j])
    &&& forall|i: int| 0 <= i < out.len() ==> #[trigger] input.contains(out[i])
    &&& forall|j: int| 0 <= j < input.len() ==> #[trigger] out.contains(input[j])
}

/// Some string of `s` has the view `p`.
pub open spec fn present(s: Seq<String>, p: Seq<char>) -> bool {
    exists|i: int| 0 <= i < s.len() && (#[trigger] s[i])@ == p
}

fn insert_unique_sorted(out: &mut Vec<String>, p: String)
    requires
        forall|i: int, j: int|
            0 <= i < j < old(out)@.len() ==> lex_lt(old(out)@[i]@, old(out)@[j]@),
    ensures
        forall|i: int, j: int|
            0 <= i < j < final(out)@.len() ==> lex_lt(final(out)@[i]@, final(out)@[j]@),
        forall|i: int|
            0 <= i < final(out)@.len() ==> (#[trigger] final(out)@[i])@ == p@ || present(
                old(out)@,
                final(out)@[i]@,
            ),
        present(final(out)@, p@),
        forall|k: int| 0 <= k < old(out)@.len() ==> present(final(out)@, (#[trigger] old(out)@[k])@),
{
    let pv = chars_of(p.as_str());
    let ghost ov = out@;
    let mut q: usize = 0;
    while q < out.len() && lex_less(&chars_of(out[q].as_str()), &pv)
        invariant
            q <= out@.len(),
            out@ == ov,
            pv@ == p@,
            forall|m: int| 0 <= m < q ==> lex_lt(#[trigger] ov[m]@, p@),
        decreases out@.len() - q,
    {
        q = q + 1;
    }
    if q < out.len() && chars_equal(&chars_of(out[q].as_str()), &pv) {
        assert(out@[q as int]@ == p@);
        assert forall|k: int| 0 <= k < ov.len() implies present(out@, (#[trigger] ov[k])@) by {
            assert(out@[k]@ == ov[k]@);
        }
        assert forall|i: int| 0 <= i < out@.len() implies (#[trigger] out@[i])@ == p@ || present(
            ov,
            out@[i]@,
        ) by {
            assert(ov[i]@ == out@[i]@);
        }
        return;
    }
    out.insert(q, p);
    proof {
        let nv = out@;
        assert(nv =~= ov.insert(q as int, nv[q as int]));
        assert(nv[q as int]@ == pv@);
        if q < ov.len() {
            lemma_lex_total(ov[q as int]@, pv@);
        }
        assert forall|i: int, j: int| 0 <= i < j < nv.len() implies lex_lt(nv[i]@, nv[j]@) by {
            if j < q {
                assert(nv[i] == ov[i] && nv[j] == ov[j]);
            } else if j == q {
                assert(nv[i] == ov[i]);
            } else if i < q {
                assert(nv[j] == ov[j - 1]);
                assert(nv[i] == ov[i]);
                if j - 1 > q {
                    lemma_lex_transitive(pv@, ov[q as int]@, ov[j - 1]@);
                }
                lemma_lex_transitive(ov[i]@, pv@, ov[j - 1]@);
            } else if i == q {
                assert(nv[j] == ov[j - 1]);
                if j - 1 > q {
                    lemma_lex_transitive(pv@, ov[q as int]@, ov[j - 1]@);
                }
            } else {
                assert(nv[i] == ov[i - 1] && nv[j] == ov[j - 1]);
            }
        }
        assert forall|i: int| 0 <= i < nv.len() implies (#[trigger] nv[i])@ == p@ || present(
            ov,
            nv[i]@,
        ) by {
            if i < q {
                assert(ov[i] == nv[i]);
            } else if i > q {
                assert(ov[i - 1] == nv[i]);
            }
        }
        assert forall|k: int| 0 <= k < ov.len() implies present(nv, (#[trigger] ov[k])@) by {
            if k < q {
                assert(nv[k] == ov[k]);
            } else {
                assert(nv[k + 1] == ov[k]);
            }
        }
    }
}

/// The paths a rename changed: the files its edits rewrote plus `extra`
/// (the renamed note, or the moved notes of a folder), each once, sorted.
pub fn changed_paths(edits: &Vec<RenameEdit>, extra: &Vec<String>) -> (r: Vec<String>)
    ensures
        sorted_unique_of(
            edits@.map_values(|e: RenameEdit| e.file_path@) + extra@.map_values(|s: String| s@),
            r@.map_values(|s: String| s@),
        ),
{
    let ghost input = edits@.map_values(|e: RenameEdit| e.file_path@) + extra@.map_values(
        |s: String| s@,
    );
    let ne = edits.len();
    let mut out: Vec<String> = Vec::new();
    let mut k: usize = 0;
    let mut j: usize = 0;
    while k < ne || j < extra.len()
        invariant
            ne == edits@.len(),
            k <= ne,
            j <= extra@.len(),
            j > 0 ==> k == ne,
            input.len() == ne + extra@.len(),
            input == edits@.map_values(|e: RenameEdit| e.file_path@) + extra@.map_values(
                |s: String| s@,
            ),
            forall|i: int, j: int| 0 <= i < j < out@.len() ==> lex_lt(out@[i]@, out@[j]@),
            forall|i: int|
                0 <= i < out@.len() ==> exists|m: int|
                    0 <= m < k + j && input[m] == (#[trigger] out@[i])@,
            forall|m: int| 0 <= m < k + j ==> present(out@, #[trigger] input[m]),
        decreases ne + extra@.len() - k - j,
    {
        let ghost idx = k + j;
        let p = if k < ne {
            edits[k].file_path.clone()
        } else {
            extra[j].clone()
        };
        assert(p@ == input[idx]);
        let ghost before = out@;
        insert_unique_sorted(&mut out, p);
        proof {
            assert forall|i: int| 0 <= i < out@.len() implies exists|m: int|
                0 <= m < idx + 1 && input[m] == (#[trigger] out@[i])@ by {
                if out@[i]@ != input[idx] {
                    assert(present(before, out@[i]@));
                    let kk = choose|kk: int| 0 <= kk < before.len() && (#[trigger] before[kk])@
                        == out@[i]@;
                    let m = choose|m: int| 0 <= m < idx && input[m] == (#[trigger] before[kk])@;
                    assert(input[m] == out@[i]@);
                }
            }
            assert forall|m: int| 0 <= m < idx + 1 implies present(out@, #[trigger] input[m]) by {
                if m < idx {
                    assert(present(before, input[m]));
                    let i0 = choose|i0: int| 0 <= i0 < before.len() && (#[trigger] before[i0])@
                        == input[m];
                    assert(present(out@, before[i0]@));
                }
            }
        }
        if k < ne {
            k = k + 1;
        } else {
            j = j + 1;
        }
    }
    let ghost ov = out@.map_values(|s: String| s@);
    assert forall|i: int| 0 <= i < ov.len() implies #[trigger] input.contains(ov[i]) by {
        assert(ov[i] == out@[i]@);
        let m = choose|m: int| 0 <= m < k + j && input[m] == (#[trigger] out@[i])@;
    }
    assert forall|j: int| 0 <= j < input.len() implies #[trigger] ov.contains(input[j]) by {
        assert(present(out@, input[j]));
        let i = choose|i: int| 0 <= i < out@.len() && (#[trigger] out@[i])@ == input[j];
        assert(ov[i] == input[j]);
    }
    out
}

/// The new path of a note inside a renamed folder: `new_prefix` followed
/// by what follows `old_prefix`, or `None` when the path is not under
/// `old_prefix`.
pub fn move_under(rel: &str, old_prefix: &str, new_prefix: &str) -> (r: Option<String>)
    ensures
        match r {
            Some(p) => starts_with(rel@, old_prefix@) && p@ == new_prefix@ + rel@.subrange(
                old_prefix@.len() as int,
                rel@.len() as int,
            ),
            None => !starts_with(rel@, old_prefix@),
        },
{
    let v = chars_of(rel);
    let pre = chars_of(old_prefix);
    if pre.len() > v.len() {
        return None;
    }
    let head = slice_chars(&v, 0, pre.len());
    if !chars_equal(&head, &pre) {
        return None;
    }
    let mut out = chars_of(new_prefix);
    append_chars(&mut out, &slice_chars(&v, pre.len(), v.len()));
    Some(string_from_chars(out.as_slice()))
}

// ---------------------------------------------------------------------------
// Initial scan
// ---------------------------------------------------------------------------

/// Whether the initial scan must index a file again: the index has no
/// modification time for it, or a different one, or the embedding service
/// is attached and reports that the file has no chunks yet. `has_chunks`
/// is that report, `None` when there is none (no service, the file has no
/// id, or the lookup failed).
pub fn needs_indexing(stored_mtime: Option<i64>, mtime: i64, has_chunks: Option<bool>) -> (r: bool)
    ensures
        r == (stored_mtime != Some(mtime) || has_chunks == Some(false)),
{
    let current = match stored_mtime {
        Some(m) => m == mtime,
        None => false,
    };
    if !current {
        return true;
    }
    match has_chunks {
        Some(chunked) => !chunked,
        None => false,
    }
}

/// A vault-relative path with every backslash turned into a forward slash.
pub fn slash_path(rel: &str) -> (r: String)
    ensures
        r@ == forward_slashes(rel@),
{
    let v = chars_of(rel);
    let mut out: Vec<char> = Vec::new();
    let mut i: usize = 0;
    while i < v.len()
        invariant
            i <= v@.len(),
            out@ == forward_slashes(v@.take(i as int)),
        decreases v@.len() - i,
    {
        let c = if v[i] == '\\' {
            '/'
        } else {
            v[i]
        };
        out.push(c);
        assert(out@ =~= forward_slashes(v@.take(i + 1)));
        i = i + 1;
    }
    assert(v@.take(i as int) =~= v@);
    string_from_chars(out.as_slice())
}

/// `first`, followed by the paths of `rest` that are not in `first`.
pub open spec fn then_missing(first: Seq<Seq<char>>, rest: Seq<Seq<char>>) -> Seq<Seq<char>>
    decreases rest.len(),
{
    if rest.len() == 0 {
        first
    } else {
        let r = then_missing(first, rest.drop_last());
        if first.contains(rest.last()) {
            r
        } else {
            r.push(rest.last())
        }
    }
}

/// The files to re-index after a rename: the renamed files (`moved`), then
/// each rewritten file that is not one of them.
pub fn reindex_paths(moved: &Vec<String>, rewritten: &Vec<String>) -> (r: Vec<String>)
    ensures
        r@.map_values(|s: String| s@) == then_missing(
            moved@.map_values(|s: String| s@),
            rewritten@.map_values(|s: String| s@),
        ),
{
    let ghost mv = moved@.map_values(|s: String| s@);
    let ghost rv = rewritten@.map_values(|s: String| s@);
    let mut out: Vec<String> = Vec::new();
    let mut i: usize = 0;
    while i < moved.len()
        invariant
            i <= moved@.len(),
            mv == moved@.map_values(|s: String| s@),
            out@.map_values(|s: String| s@) == mv.take(i as int),
        decreases moved@.len() - i,
    {
        let ghost ov = out@.map_values(|s: String| s@);
        out.push(moved[i].clone());
        assert(out@.map_values(|s: String| s@) =~= ov.push(mv[i as int]));
        assert(mv.take(i + 1) =~= mv.take(i as int).push(mv[i as int]));
        i = i + 1;
    }
    assert(mv.take(i as int) =~= mv);
    let mut k: usize = 0;
    assert(rv.take(0) =~= Seq::<Seq<char>>::empty());
    while k < rewritten.len()
        invariant
            k <= rewritten@.len(),
            mv == moved@.map_values(|s: String| s@),
            rv == rewritten@.map_values(|s: String| s@),
            out@.map_values(|s: String| s@) == then_missing(mv, rv.take(k as int)),
        decreases rewritten@.len() - k,
    {
        let ghost ov = out@.map_values(|s: String| s@);
        assert(rv.take(k + 1).drop_last() =~= rv.take(k as int));
        assert(rv.take(k + 1).last() == rv[k as int]);
        let p = chars_of(rewritten[k].as_str());
        if !crate::neighborhood::contains_id(moved, &p) {
            out.push(rewritten[k].clone());
            assert(out@.map_values(|s: String| s@) =~= ov.push(rv[k as int]));
        }
        k = k + 1;
    }
    assert(rv.take(k as int) =~= rv);
    out
}

} // verus!
