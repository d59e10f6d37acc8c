//! Wiki-link resolution rules.
//!
//! A plain link target is looked up in two tiers: the filename stem
//! (case-insensitive), then a frontmatter alias (case-insensitive). A
//! target containing `/` names a path: it resolves only to the file at
//! exactly that path (case-insensitive, `.md` appended), never by a plain
//! stem. At each tier exactly one candidate resolves; none falls through
//! to the next tier; several make the link ambiguous unless proximity
//! tiebreaking, when enabled, finds a single candidate closest to the
//! linking file.

use vstd::prelude::*;
use crate::paths::{eq_ignore_ascii_case, parent_dir, chars_eq_ignore_ascii_case, parent_dir_of};
use crate::text::{
    CharSet, append_chars, chars_of, lowercase, skip_backward, skip_forward, slice_chars,
    string_from_chars, to_lowercase, trim_end_set, trim_start_set,
};
use crate::paths::path_stem;

verus! {

/// Opaque stable note identifier (UUID v4 as a string).
pub type NoteId = String;

/// An indexed file.
#[derive(Debug, Clone)]
pub struct FileRecord {
    pub id: NoteId,
    pub path: String,
    pub mtime_secs: i64,
}

/// The result of resolving a wiki-link target string.
#[derive(Debug, Clone, PartialEq)]
pub enum LinkResolution {
    /// Exactly one candidate found.
    Resolved(NoteId),
    /// No matching file found.
    Unresolved,
    /// Multiple candidates remain after all tiebreaking.
    Ambiguous(Vec<NoteId>),
}

/// Index of the first `c` at or after `i` in `s`, or the length of `s`.
pub open spec fn find_char(s: Seq<char>, i: int, c: char) -> int
    decreases s.len() - i,
{
    if 0 <= i < s.len() && s[i] != c {
        find_char(s, i + 1, c)
    } else {
        i
    }
}

pub proof fn lemma_find_char(s: Seq<char>, i: int, c: char)
    requires
        0 <= i <= s.len(),
    ensures
        i <= find_char(s, i, c) <= s.len(),
        find_char(s, i, c) < s.len() ==> s[find_char(s, i, c)] == c,
        forall|k: int| i <= k < find_char(s, i, c) ==> #[trigger] s[k] != c,
    decreases s.len() - i,
{
    if i < s.len() && s[i] != c {
        lemma_find_char(s, i + 1, c);
    }
}

/// The pieces of `s` from position `i` between `/` separators
/// (`str::split('/')`, empty pieces included).
pub open spec fn split_slash_from(s: Seq<char>, i: int) -> Seq<Seq<char>>
    decreases s.len() + 1 - i,
{
    if i < 0 || i > s.len() {
        Seq::empty()
    } else {
        let j = find_char(s, i, '/');
        if i <= j < s.len() {
            seq![s.subrange(i, j)] + split_slash_from(s, j + 1)
        } else {
            seq![s.subrange(i, s.len() as int)]
        }
    }
}

/// The components of a directory path: none for the empty path, else the
/// `/`-separated pieces.
pub open spec fn dir_components(s: Seq<char>) -> Seq<Seq<char>> {
    if s.len() == 0 {
        Seq::empty()
    } else {
        split_slash_from(s, 0)
    }
}

/// Length of the longest common prefix of two component lists, comparing
/// components ignoring ASCII case, from position `k`.
pub open spec fn common_from(a: Seq<Seq<char>>, b: Seq<Seq<char>>, k: int) -> int
    decreases a.len() - k,
{
    if 0 <= k < a.len() && k < b.len() && eq_ignore_ascii_case(a[k], b[k]) {
        common_from(a, b, k + 1)
    } else {
        k
    }
}

/// The number of directory components that differ between two directory
/// paths: those of each beyond their common prefix.
pub open spec fn dir_distance(a: Seq<char>, b: Seq<char>) -> int {
    let ap = dir_components(a);
    let bp = dir_components(b);
    let common = common_from(ap, bp, 0);
    (ap.len() - common) + (bp.len() - common)
}

proof fn lemma_common_from(a: Seq<Seq<char>>, b: Seq<Seq<char>>, k: int)
    requires
        0 <= k <= a.len(),
        k <= b.len(),
    ensures
        k <= common_from(a, b, k) <= a.len(),
        common_from(a, b, k) <= b.len(),
    decreases a.len() - k,
{
    if k < a.len() && k < b.len() && eq_ignore_ascii_case(a[k], b[k]) {
        lemma_common_from(a, b, k + 1);
    }
}

/// `m` is the length of the longest common prefix of two component lists,
/// comparing components ignoring ASCII case: the first `m` components
/// agree, and the next pair (if both lists go on) does not.
pub open spec fn longest_common_prefix(a: Seq<Seq<char>>, b: Seq<Seq<char>>, m: int) -> bool {
    &&& 0 <= m <= a.len()
    &&& m <= b.len()
    &&& forall|k: int| 0 <= k < m ==> eq_ignore_ascii_case(#[trigger] a[k], b[k])
    &&& (m < a.len() && m < b.len() ==> !eq_ignore_ascii_case(a[m], b[m]))
}

proof fn lemma_common_from_is_prefix(a: Seq<Seq<char>>, b: Seq<Seq<char>>, m: int, k: int)
    requires
        longest_common_prefix(a, b, m),
        0 <= k <= m,
    ensures
        common_from(a, b, k) == m,
    decreases m - k,
{
    if k < m {
        assert(eq_ignore_ascii_case(a[k], b[k]));
        lemma_common_from_is_prefix(a, b, m, k + 1);
    }
}

/// The distance between two directories counts their components outside
/// the longest common prefix (components compared ignoring ASCII case):
/// with `m` that prefix's length, it is `|a| - m + |b| - m`. So
/// directories whose first components differ are as far apart as their
/// total number of components (`work/alpha` and `home/alpha` are 4 apart),
/// and a directory is 0 from itself.
pub proof fn distance_counts_components_outside_common_prefix(a: Seq<char>, b: Seq<char>, m: int)
    requires
        longest_common_prefix(dir_components(a), dir_components(b), m),
    ensures
        dir_distance(a, b) == dir_components(a).len() + dir_components(b).len() - 2 * m,
{
    lemma_common_from_is_prefix(dir_components(a), dir_components(b), m, 0);
}

/// Pieces joined with `/` between them.
pub open spec fn join_slash(parts: Seq<Seq<char>>) -> Seq<char>
    decreases parts.len(),
{
    if parts.len() <= 1 {
        if parts.len() == 1 {
            parts[0]
        } else {
            Seq::empty()
        }
    } else {
        parts[0] + seq!['/'] + join_slash(parts.drop_first())
    }
}

proof fn lemma_split_slash_from(s: Seq<char>, i: int)
    requires
        0 <= i <= s.len(),
    ensures
        split_slash_from(s, i).len() >= 1,
        join_slash(split_slash_from(s, i)) == s.subrange(i, s.len() as int),
        forall|k: int, m: int|
            0 <= k < split_slash_from(s, i).len() && 0 <= m < split_slash_from(s, i)[k].len()
                ==> #[trigger] split_slash_from(s, i)[k][m] != '/',
    decreases s.len() + 1 - i,
{
    lemma_find_char(s, i, '/');
    let j = find_char(s, i, '/');
    let piece = s.subrange(i, j);
    assert forall|m: int| 0 <= m < piece.len() implies piece[m] != '/' by {
        assert(piece[m] == s[i + m]);
    }
    if i <= j < s.len() {
        lemma_split_slash_from(s, j + 1);
        let rest = split_slash_from(s, j + 1);
        let parts = seq![piece] + rest;
        assert(split_slash_from(s, i) == parts);
        assert(parts.drop_first() =~= rest);
        assert(parts[0] == piece);
        assert(s.subrange(i, s.len() as int) =~= piece + seq!['/'] + s.subrange(j + 1, s.len() as int));
        assert forall|k: int, m: int|
            0 <= k < parts.len() && 0 <= m < parts[k].len() implies #[trigger] parts[k][m] != '/' by {
            if k > 0 {
                assert(parts[k] == rest[k - 1]);
            }
        }
    } else {
        assert(j == s.len());
        assert(split_slash_from(s, i) == seq![s.subrange(i, s.len() as int)]);
    }
}

/// A directory path's components are its `/`-separated pieces: none
/// holds a `/`, and joined with `/` they give the path back (the empty
/// path has none).
pub proof fn dir_components_rejoin(s: Seq<char>)
    ensures
        join_slash(dir_components(s)) == s,
        forall|k: int, m: int|
            0 <= k < dir_components(s).len() && 0 <= m < dir_components(s)[k].len()
                ==> #[trigger] dir_components(s)[k][m] != '/',
        s.len() > 0 <==> dir_components(s).len() > 0,
{
    if s.len() > 0 {
        lemma_split_slash_from(s, 0);
        assert(s.subrange(0, s.len() as int) =~= s);
    }
}

pub open spec fn char_vec_views(v: Seq<Vec<char>>) -> Seq<Seq<char>> {
    v.map_values(|c: Vec<char>| c@)
}

fn split_slash(v: &Vec<char>) -> (r: Vec<Vec<char>>)
    ensures
        char_vec_views(r@) == dir_components(v@),
{
    let mut out: Vec<Vec<char>> = Vec::new();
    if v.len() == 0 {
        assert(char_vec_views(out@) =~= Seq::<Seq<char>>::empty());
        return out;
    }
    let mut i: usize = 0;
    assert(char_vec_views(out@) =~= Seq::<Seq<char>>::empty());
    loop
        invariant
            i <= v@.len(),
            v@.len() > 0,
            char_vec_views(out@) + split_slash_from(v@, i as int) == dir_components(v@),
        decreases v@.len() - i,
    {
        let mut j = i;
        proof {
            lemma_find_char(v@, i as int, '/');
        }
        while j < v.len() && v[j] != '/'
            invariant
                i <= j <= v@.len(),
                find_char(v@, j as int, '/') == find_char(v@, i as int, '/'),
            decreases v@.len() - j,
        {
            j = j + 1;
        }
        let ghost before = char_vec_views(out@);
        let piece = slice_chars(v, i, j);
        out.push(piece);
        assert(char_vec_views(out@) =~= before.push(v@.subrange(i as int, j as int)));
        if j >= v.len() {
            assert(split_slash_from(v@, i as int) == seq![v@.subrange(i as int, v@.len() as int)]);
            assert(before.push(v@.subrange(i as int, j as int)) =~= before + seq![
                v@.subrange(i as int, v@.len() as int),
            ]);
            return out;
        }
        assert(split_slash_from(v@, i as int) == seq![v@.subrange(i as int, j as int)]
            + split_slash_from(v@, j + 1));
        assert(before + (seq![v@.subrange(i as int, j as int)] + split_slash_from(v@, j + 1))
            =~= before.push(v@.subrange(i as int, j as int)) + split_slash_from(v@, j + 1));
        i = j + 1;
    }
}

/// Computes a simple path distance metric: the number of directory
/// components that differ between two directory paths (as a `u128`, which
/// no pair of in-memory paths can overflow).
pub fn path_distance(a: &str, b: &str) -> (r: u128)
    ensures
        r as int == dir_distance(a@, b@),
{
    let av = chars_of(a);
    let bv = chars_of(b);
    let ap = split_slash(&av);
    let bp = split_slash(&bv);
    let ghost aps = char_vec_views(ap@);
    let ghost bps = char_vec_views(bp@);
    proof {
        lemma_common_from(aps, bps, 0);
    }
    let mut k: usize = 0;
    while k < ap.len() && k < bp.len() && chars_eq_ignore_ascii_case(&ap[k], &bp[k])
        invariant
            k <= ap@.len(),
            k <= bp@.len(),
            aps == char_vec_views(ap@),
            bps == char_vec_views(bp@),
            common_from(aps, bps, k as int) == common_from(aps, bps, 0),
        decreases ap@.len() - k,
    {
        assert(aps[k as int] == ap@[k as int]@);
        assert(bps[k as int] == bp@[k as int]@);
        k = k + 1;
    }
    proof {
        if k < ap@.len() && k < bp@.len() {
            assert(aps[k as int] == ap@[k as int]@);
            assert(bps[k as int] == bp@[k as int]@);
        }
    }
    (ap.len() - k) as u128 + (bp.len() - k) as u128
}

pub open spec fn record_distance(source_path: Seq<char>, f: FileRecord) -> int {
    dir_distance(parent_dir(source_path), parent_dir(f.path@))
}

/// Candidate `i` is strictly closer to the source than every other one.
pub open spec fn unique_closest(cands: Seq<FileRecord>, source_path: Seq<char>, i: int) -> bool {
    &&& 0 <= i < cands.len()
    &&& forall|j: int|
        0 <= j < cands.len() && j != i ==> record_distance(source_path, #[trigger] cands[j])
            > record_distance(source_path, cands[i])
}

/// Returns the `NoteId` of the candidate with the shortest path distance
/// from `source_path`, or `None` if there is a tie at the shortest distance.
pub fn proximity_winner(candidates: &Vec<FileRecord>, source_path: &str) -> (r: Option<NoteId>)
    requires
        candidates@.len() > 0,
    ensures
        match r {
            Some(id) => exists|i: int|
                unique_closest(candidates@, source_path@, i) && id@ == candidates@[i].id@,
            None => forall|i: int| !unique_closest(candidates@, source_path@, i),
        },
{
    let source_dir = parent_dir_of(source_path);
    let mut dists: Vec<u128> = Vec::new();
    let mut i: usize = 0;
    while i < candidates.len()
        invariant
            i <= candidates@.len(),
            source_dir@ == parent_dir(source_path@),
            dists@.len() == i,
            forall|k: int|
                0 <= k < i ==> dists@[k] as int == record_distance(
                    source_path@,
                    #[trigger] candidates@[k],
                ),
        decreases candidates@.len() - i,
    {
        let d = path_distance(source_dir.as_str(), parent_dir_of(candidates[i].path.as_str()).as_str());
        dists.push(d);
        i = i + 1;
    }
    // The minimum distance and how many candidates reach it.
    let mut best: usize = 0;
    let mut min = dists[0];
    let mut count: usize = 1;
    let mut k: usize = 1;
    while k < dists.len()
        invariant
            dists@.len() == candidates@.len(),
            1 <= k <= dists@.len(),
            best < k,
            min == dists@[best as int],
            forall|m: int| 0 <= m < k ==> min <= #[trigger] dists@[m],
            1 <= count <= k,
            count == 1 ==> forall|m: int| 0 <= m < k && m != best ==> min < #[trigger] dists@[m],
            count > 1 ==> exists|m: int| 0 <= m < k && m != best && dists@[m] == min,
        decreases dists@.len() - k,
    {
        if dists[k] < min {
            min = dists[k];
            best = k;
            count = 1;
        } else if dists[k] == min {
            count = count + 1;
        }
        k = k + 1;
    }
    if count == 1 {
        assert(unique_closest(candidates@, source_path@, best as int)) by {
            assert forall|j: int|
                0 <= j < candidates@.len() && j != best implies record_distance(
                source_path@,
                #[trigger] candidates@[j],
            ) > record_distance(source_path@, candidates@[best as int]) by {
                assert(min < dists@[j]);
            }
        }
        Some(candidates[best].id.clone())
    } else {
        assert forall|i: int| !unique_closest(candidates@, source_path@, i) by {
            if unique_closest(candidates@, source_path@, i) {
                let m = choose|m: int| 0 <= m < k && m != best && dists@[m] == min;
                if i == best {
                    assert(record_distance(source_path@, candidates@[m]) > record_distance(
                        source_path@,
                        candidates@[best as int],
                    ));
                } else {
                    assert(record_distance(source_path@, candidates@[best as int])
                        > record_distance(source_path@, candidates@[i]));
                    assert(min <= dists@[i]);
                }
            }
        }
        None
    }
}

pub open spec fn record_ids(v: Seq<FileRecord>) -> Seq<Seq<char>> {
    v.map_values(|f: FileRecord| f.id@)
}

/// The resolution that a tier's candidates give, if they give one: `None`
/// for no candidate (fall through to the next tier), the single candidate,
/// the proximity winner when tiebreaking is on and the linking file is
/// known, else all candidates as ambiguous, in order.
pub open spec fn tier_outcome(
    r: Option<LinkResolution>,
    cands: Seq<FileRecord>,
    source_path: Option<Seq<char>>,
    proximity_enabled: bool,
) -> bool {
    if cands.len() == 0 {
        r is None
    } else if cands.len() == 1 {
        r matches Some(LinkResolution::Resolved(id)) && id@ == cands[0].id@
    } else if proximity_enabled && source_path is Some && exists|i: int|
        unique_closest(cands, source_path->0, i) {
        r matches Some(LinkResolution::Resolved(id)) && exists|i: int|
            unique_closest(cands, source_path->0, i) && id@ == cands[i].id@
    } else {
        r matches Some(LinkResolution::Ambiguous(ids)) && ids@.map_values(|s: String| s@)
            == record_ids(cands)
    }
}

/// Reduces one tier's candidates to a [`LinkResolution`], using proximity
/// tiebreaking when enabled.
pub fn resolve_candidates(
    candidates: Vec<FileRecord>,
    source_path: Option<&str>,
    proximity_enabled: bool,
) -> (r: Option<LinkResolution>)
    ensures
        tier_outcome(
            r,
            candidates@,
            match source_path {
                Some(s) => Some(s@),
                None => None,
            },
            proximity_enabled,
        ),
{
    if candidates.len() == 0 {
        return None;
    }
    if candidates.len() == 1 {
        return Some(LinkResolution::Resolved(candidates[0].id.clone()));
    }
    if proximity_enabled {
        if let Some(src) = source_path {
            let best = proximity_winner(&candidates, src);
            if let Some(winner) = best {
                return Some(LinkResolution::Resolved(winner));
            }
        }
    }
    let mut ids: Vec<NoteId> = Vec::new();
    let mut i: usize = 0;
    while i < candidates.len()
        invariant
            i <= candidates@.len(),
            ids@.map_values(|s: String| s@) == record_ids(candidates@).take(i as int),
        decreases candidates@.len() - i,
    {
        let ghost before = ids@.map_values(|s: String| s@);
        ids.push(candidates[i].id.clone());
        assert(ids@.map_values(|s: String| s@) =~= before.push(candidates@[i as int].id@));
        assert(record_ids(candidates@).take(i + 1) =~= record_ids(candidates@).take(i as int).push(
            candidates@[i as int].id@,
        ));
        i = i + 1;
    }
    assert(record_ids(candidates@).take(i as int) =~= record_ids(candidates@));
    Some(LinkResolution::Ambiguous(ids))
}

/// Whether the path tier applies to a target: only targets that contain a
/// `/` are looked up by path.
pub fn needs_path_tier(target: &str) -> (r: bool)
    ensures
        r == target@.contains('/'),
{
    let v = chars_of(target);
    let mut i: usize = 0;
    while i < v.len()
        invariant
            i <= v@.len(),
            v@ == target@,
            forall|k: int| 0 <= k < i ==> v@[k] != '/',
        decreases v@.len() - i,
    {
        if v[i] == '/' {
            return true;
        }
        i = i + 1;
    }
    false
}

/// Whether the file at `path` has the stem `stem`, compared by lower-case
/// forms: the filter applied to the tier-one candidates.
pub fn stem_matches(path: &str, stem: &str) -> (r: bool)
    ensures
        r == (lowercase(path_stem(path@)) == lowercase(stem@)),
{
    let actual = crate::paths::stem_from_path(path);
    let a = chars_of(to_lowercase(actual.as_str()).as_str());
    let b = chars_of(to_lowercase(stem).as_str());
    crate::order::chars_equal(&a, &b)
}

/// The markdown path that a path-qualified target names: the target
/// without leading and trailing `/`, with `.md` appended.
pub open spec fn target_path(target: Seq<char>) -> Seq<char> {
    trim_end_set(trim_start_set(target, CharSet::Is('/')), CharSet::Is('/')) + ".md"@
}

/// Whether the file at `path` is the one a path-qualified `target` names,
/// compared by lower-case forms: the filter applied to the path tier.
pub fn is_target_path(path: &str, target: &str) -> (r: bool)
    ensures
        r == (lowercase(path@) == lowercase(target_path(target@))),
{
    let v = chars_of(target);
    let n = v.len();
    let a = skip_forward(&v, 0, n, CharSet::Is('/'));
    let b = skip_backward(&v, a, n, CharSet::Is('/'));
    assert(v@.subrange(0, n as int) =~= v@);
    let mut named = slice_chars(&v, a, b);
    let ext = chars_of(".md");
    append_chars(&mut named, &ext);
    let wanted = string_from_chars(named.as_slice());
    let x = chars_of(to_lowercase(path).as_str());
    let y = chars_of(to_lowercase(wanted.as_str()).as_str());
    crate::order::chars_equal(&x, &y)
}

/// Whether a frontmatter alias names `stem`, ignoring ASCII case (the
/// comparison that SQLite's `NOCASE` collation makes): the filter applied
/// to the alias tier.
pub fn alias_matches(alias: &str, stem: &str) -> (r: bool)
    ensures
        r == eq_ignore_ascii_case(alias@, stem@),
{
    let a = chars_of(alias);
    let b = chars_of(stem);
    chars_eq_ignore_ascii_case(&a, &b)
}

/// The view of an optional linking-file path.
pub open spec fn source_view(source_path: Option<&str>) -> Option<Seq<char>> {
    match source_path {
        Some(s) => Some(s@),
        None => None,
    }
}

/// How a link resolves from the candidates of each tier. A target with a
/// `/` is decided by the path tier alone; any other target by the stem
/// tier, or, when no file has that stem, by the alias tier. A tier with no
/// candidate leaves the link unresolved.
pub open spec fn tiers_outcome(
    r: LinkResolution,
    target: Seq<char>,
    by_stem: Seq<FileRecord>,
    by_alias: Seq<FileRecord>,
    by_path: Seq<FileRecord>,
    source_path: Option<Seq<char>>,
    proximity_enabled: bool,
) -> bool {
    if target.contains('/') {
        if by_path.len() == 0 {
            r is Unresolved
        } else {
            tier_outcome(Some(r), by_path, source_path, proximity_enabled)
        }
    } else if by_stem.len() > 0 {
        tier_outcome(Some(r), by_stem, source_path, proximity_enabled)
    } else if by_alias.len() > 0 {
        tier_outcome(Some(r), by_alias, source_path, proximity_enabled)
    } else {
        r is Unresolved
    }
}

/// Resolves a wiki-link target from the candidates that each tier found:
/// the files with its stem, the files with it as an alias, and the files
/// at the path it names.
pub fn resolve_by_tiers(
    target: &str,
    by_stem: Vec<FileRecord>,
    by_alias: Vec<FileRecord>,
    by_path: Vec<FileRecord>,
    source_path: Option<&str>,
    proximity_enabled: bool,
) -> (r: LinkResolution)
    ensures
        tiers_outcome(
            r,
            target@,
            by_stem@,
            by_alias@,
            by_path@,
            source_view(source_path),
            proximity_enabled,
        ),
{
    if needs_path_tier(target) {
        return match resolve_candidates(by_path, source_path, proximity_enabled) {
            Some(r) => r,
            None => LinkResolution::Unresolved,
        };
    }
    if let Some(r) = resolve_candidates(by_stem, source_path, proximity_enabled) {
        return r;
    }
    match resolve_candidates(by_alias, source_path, proximity_enabled) {
        Some(r) => r,
        None => LinkResolution::Unresolved,
    }
}

} // verus!
