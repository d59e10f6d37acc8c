//! Vault-relative path helpers: slash-separated components, filename stems,
//! extensions and ASCII case-insensitive comparison.
//!
//! Vault paths always use `/`. [`file_name`], [`file_stem`] and
//! [`extension`] follow the rules of `std::path::Path` on Unix: empty and
//! `.` components are ignored, a trailing `..` has no file name, and a
//! leading dot does not start an extension.

use vstd::prelude::*;
use crate::text::{chars_of, slice_chars, string_from_chars};

verus! {

/// ASCII lower-casing of one character (`char::to_ascii_lowercase`).
pub open spec fn ascii_lower(c: char) -> char {
    if 'A' <= c && c <= 'Z' {
        ((c as u32) + 32) as char
    } else {
        c
    }
}

/// Two characters are the same letter ignoring ASCII case: equal, or an
/// ASCII upper-case letter and its lower-case form.
pub open spec fn same_ignoring_ascii_case(x: char, y: char) -> bool {
    ||| x == y
    ||| ('A' <= x && x <= 'Z' && y as u32 == x as u32 + 32)
    ||| ('A' <= y && y <= 'Z' && x as u32 == y as u32 + 32)
}

proof fn lemma_ascii_lower_pair(x: char, y: char)
    ensures
        (ascii_lower(x) == ascii_lower(y)) == same_ignoring_ascii_case(x, y),
{
    assert(('A' <= x && x <= 'Z') ==> ascii_lower(x) as u32 == x as u32 + 32);
    assert(('A' <= y && y <= 'Z') ==> ascii_lower(y) as u32 == y as u32 + 32);
}

/// Comparing ignoring ASCII case: two texts match exactly when they have
/// the same length and each pair of characters is the same letter
/// ignoring ASCII case (only `A`–`Z` and `a`–`z` fold).
pub proof fn ascii_case_comparison(a: Seq<char>, b: Seq<char>)
    ensures
        eq_ignore_ascii_case(a, b) == (a.len() == b.len() && forall|i: int|
            0 <= i < a.len() ==> same_ignoring_ascii_case(#[trigger] a[i], b[i])),
{
    assert forall|i: int| 0 <= i < a.len() && i < b.len() implies (ascii_lower(#[trigger] a[i])
        == ascii_lower(b[i])) == same_ignoring_ascii_case(a[i], b[i]) by {
        lemma_ascii_lower_pair(a[i], b[i]);
    }
}

/// `str::eq_ignore_ascii_case`.
pub open spec fn eq_ignore_ascii_case(a: Seq<char>, b: Seq<char>) -> bool {
    &&& a.len() == b.len()
    &&& forall|i: int| 0 <= i < a.len() ==> ascii_lower(#[trigger] a[i]) == ascii_lower(b[i])
}

pub fn ascii_lower_exec(c: char) -> (r: char)
    ensures
        r == ascii_lower(c),
{
    if 'A' <= c && c <= 'Z' {
        ((c as u8) + 32) as char
    } else {
        c
    }
}

/// Whether two character runs are equal ignoring ASCII case.
pub fn chars_eq_ignore_ascii_case(a: &Vec<char>, b: &Vec<char>) -> (r: bool)
    ensures
        r == eq_ignore_ascii_case(a@, b@),
{
    if a.len() != b.len() {
        return false;
    }
    let mut i: usize = 0;
    while i < a.len()
        invariant
            a@.len() == b@.len(),
            i <= a@.len(),
            forall|k: int| 0 <= k < i ==> ascii_lower(#[trigger] a@[k]) == ascii_lower(b@[k]),
        decreases a@.len() - i,
    {
        if ascii_lower_exec(a[i]) != ascii_lower_exec(b[i]) {
            return false;
        }
        i = i + 1;
    }
    true
}

/// Index of the last occurrence of `c` in `s`, or `-1`.
pub open spec fn last_index_of(s: Seq<char>, c: char) -> int
    decreases s.len(),
{
    if s.len() == 0 {
        -1
    } else if s.last() == c {
        s.len() - 1
    } else {
        last_index_of(s.drop_last(), c)
    }
}

pub proof fn lemma_last_index_of(s: Seq<char>, c: char)
    ensures
        -1 <= last_index_of(s, c) < s.len(),
        last_index_of(s, c) >= 0 ==> s[last_index_of(s, c)] == c,
        forall|k: int| last_index_of(s, c) < k < s.len() ==> s[k] != c,
    decreases s.len(),
{
    if s.len() > 0 && s.last() != c {
        lemma_last_index_of(s.drop_last(), c);
        assert forall|k: int| last_index_of(s, c) < k < s.len() implies s[k] != c by {
            if k < s.len() - 1 {
                assert(s.drop_last()[k] == s[k]);
            }
        }
    }
}

/// The last `/`-separated piece of `s` (`s.rsplit('/').next()`): all of `s`
/// when it has no `/`.
pub open spec fn after_last_slash(s: Seq<char>) -> Seq<char> {
    s.subrange(last_index_of(s, '/') + 1, s.len() as int)
}

/// Everything before the last `/` of `s`, or nothing when it has none.
pub open spec fn parent_dir(s: Seq<char>) -> Seq<char> {
    if last_index_of(s, '/') >= 0 {
        s.subrange(0, last_index_of(s, '/'))
    } else {
        Seq::empty()
    }
}

/// A path splits at its last `/` into its directory and its file name:
/// the name holds no `/`, and directory, `/` and name give the path back;
/// a path without `/` is a bare name in the root directory (empty).
pub proof fn path_splits_at_last_slash(s: Seq<char>)
    ensures
        forall|k: int|
            0 <= k < after_last_slash(s).len() ==> #[trigger] after_last_slash(s)[k] != '/',
        s.contains('/') ==> parent_dir(s) + seq!['/'] + after_last_slash(s) == s,
        !s.contains('/') ==> parent_dir(s) == Seq::<char>::empty() && after_last_slash(s) == s,
{
    lemma_last_index_of(s, '/');
    let i = last_index_of(s, '/');
    assert forall|k: int| 0 <= k < after_last_slash(s).len() implies #[trigger] after_last_slash(
        s,
    )[k] != '/' by {
        assert(after_last_slash(s)[k] == s[i + 1 + k]);
    }
    if s.contains('/') {
        let j = choose|j: int| 0 <= j < s.len() && s[j] == '/';
        assert(i >= 0);
        assert(parent_dir(s) + seq!['/'] + after_last_slash(s) =~= s);
    } else {
        if i >= 0 {
            assert(s[i] == '/');
        }
        assert(after_last_slash(s) =~= s);
    }
}

pub open spec fn ends_with(s: Seq<char>, suffix: Seq<char>) -> bool {
    s.len() >= suffix.len() && s.subrange(s.len() - suffix.len(), s.len() as int) == suffix
}

pub open spec fn starts_with(s: Seq<char>, prefix: Seq<char>) -> bool {
    s.len() >= prefix.len() && s.subrange(0, prefix.len() as int) == prefix
}

pub open spec fn md_suffix() -> Seq<char> {
    seq!['.', 'm', 'd']
}

/// `s` without a trailing `.md` (`strip_suffix(".md").unwrap_or(s)`).
pub open spec fn strip_md(s: Seq<char>) -> Seq<char> {
    if ends_with(s, md_suffix()) {
        s.subrange(0, s.len() - 3)
    } else {
        s
    }
}

/// The filename stem of a vault path: `"notes/my-note.md"` gives
/// `"my-note"`.
pub open spec fn path_stem(path: Seq<char>) -> Seq<char> {
    strip_md(after_last_slash(path))
}

/// Index of the last `c` in `v`, if any.
pub fn last_index_exec(v: &Vec<char>, c: char) -> (r: Option<usize>)
    ensures
        match r {
            Some(i) => i as int == last_index_of(v@, c),
            None => last_index_of(v@, c) == -1,
        },
{
    proof {
        lemma_last_index_of(v@, c);
    }
    let mut j = v.len();
    assert(v@.subrange(0, j as int) =~= v@);
    while j > 0 && v[j - 1] != c
        invariant
            j <= v@.len(),
            last_index_of(v@.subrange(0, j as int), c) == last_index_of(v@, c),
        decreases j,
    {
        assert(v@.subrange(0, j - 1) =~= v@.subrange(0, j as int).drop_last());
        j = j - 1;
    }
    if j == 0 {
        assert(v@.subrange(0, 0) =~= Seq::<char>::empty());
        None
    } else {
        assert(v@.subrange(0, j as int).last() == v@[j - 1]);
        Some(j - 1)
    }
}

/// Position just after the last `/` of `v` (0 when there is none).
fn after_slash_start(v: &Vec<char>) -> (r: usize)
    ensures
        r as int == last_index_of(v@, '/') + 1,
        r <= v@.len(),
{
    proof {
        lemma_last_index_of(v@, '/');
    }
    let n = v.len();
    match last_index_exec(v, '/') {
        Some(i) => {
            assert(i < n);
            i + 1
        },
        None => 0,
    }
}

/// Whether `v` ends with `.md`.
pub fn has_md_suffix(v: &Vec<char>) -> (r: bool)
    ensures
        r == ends_with(v@, md_suffix()),
{
    let n = v.len();
    if n < 3 {
        return false;
    }
    let r = v[n - 3] == '.' && v[n - 2] == 'm' && v[n - 1] == 'd';
    assert(r == (v@.subrange(n - 3, n as int) =~= md_suffix()));
    r
}

/// The filename stem of a vault-relative path.
///
/// `"notes/my-note.md"` → `"my-note"`, `"root.md"` → `"root"`.
pub fn stem_from_path(path: &str) -> (r: String)
    ensures
        r@ == path_stem(path@),
{
    let v = chars_of(path);
    let start = after_slash_start(&v);
    let name = slice_chars(&v, start, v.len());
    let end = if has_md_suffix(&name) {
        name.len() - 3
    } else {
        name.len()
    };
    let out = slice_chars(&name, 0, end);
    assert(end == name@.len() ==> out@ =~= name@);
    string_from_chars(out.as_slice())
}

/// The stem of a wiki-link target: its last `/`-separated piece.
///
/// `"folder/note"` → `"note"`, `"note"` → `"note"`.
pub fn stem_from_target(target: &str) -> (r: String)
    ensures
        r@ == after_last_slash(target@),
{
    let v = chars_of(target);
    let start = after_slash_start(&v);
    let out = slice_chars(&v, start, v.len());
    string_from_chars(out.as_slice())
}

/// The directory part of a path: everything before its last `/`, or the
/// empty string.
pub fn parent_dir_of(path: &str) -> (r: String)
    ensures
        r@ == parent_dir(path@),
{
    let v = chars_of(path);
    match last_index_exec(&v, '/') {
        Some(i) => {
            proof {
                lemma_last_index_of(v@, '/');
            }
            let out = slice_chars(&v, 0, i);
            string_from_chars(out.as_slice())
        },
        None => String::new(),
    }
}

// ---------------------------------------------------------------------------
// std::path::Path rules for file names
// ---------------------------------------------------------------------------

/// The components of a Unix path that can name a file: the `/`-separated
/// pieces without empty and `.` pieces, left to right.
pub open spec fn name_components(s: Seq<char>) -> Seq<Seq<char>>
    decreases s.len(),
{
    if s.len() == 0 {
        Seq::empty()
    } else {
        let k = last_index_of(s, '/');
        proof {
            lemma_last_index_of(s, '/');
        }
        let piece = s.subrange(k + 1, s.len() as int);
        let before = if k >= 0 {
            name_components(s.subrange(0, k))
        } else {
            Seq::empty()
        };
        if piece.len() == 0 || piece == seq!['.'] {
            before
        } else {
            before.push(piece)
        }
    }
}

/// `Path::file_name`: the last component, unless it is `..` or there is
/// none.
pub open spec fn file_name(s: Seq<char>) -> Option<Seq<char>> {
    let comps = name_components(s);
    if comps.len() == 0 || comps.last() == seq!['.', '.'] {
        None
    } else {
        Some(comps.last())
    }
}

/// `Path::file_stem`: the file name up to its last `.`, or the whole name
/// when it has no `.` or only a leading one.
pub open spec fn file_stem(s: Seq<char>) -> Option<Seq<char>> {
    match file_name(s) {
        Some(name) => {
            let k = last_index_of(name, '.');
            if k > 0 {
                Some(name.subrange(0, k))
            } else {
                Some(name)
            }
        },
        None => None,
    }
}

/// `Path::extension`: the file name after its last `.`, when that `.` is not
/// the first character.
pub open spec fn extension(s: Seq<char>) -> Option<Seq<char>> {
    match file_name(s) {
        Some(name) => {
            let k = last_index_of(name, '.');
            if k > 0 {
                Some(name.subrange(k + 1, name.len() as int))
            } else {
                None
            }
        },
        None => None,
    }
}

proof fn lemma_name_components_prefix(s: Seq<char>, k: int)
    requires
        0 <= k < s.len(),
        s[k] == '/',
        forall|m: int| k < m < s.len() ==> s[m] != '/',
    ensures
        last_index_of(s, '/') == k,
    decreases s.len(),
{
    if s.last() != '/' {
        assert(s.drop_last().len() < s.len());
        if k < s.len() - 1 {
            assert forall|m: int| k < m < s.drop_last().len() implies s.drop_last()[m] != '/' by {
                assert(s.drop_last()[m] == s[m]);
            }
            lemma_name_components_prefix(s.drop_last(), k);
        }
    }
}

/// The last component of `v[0..end]` that can name a file, as a range, if
/// any.
fn last_name_component(v: &Vec<char>, end: usize) -> (r: Option<(usize, usize)>)
    requires
        end <= v@.len(),
    ensures
        match r {
            Some((a, b)) => a < b <= end && name_components(v@.subrange(0, end as int)).len() > 0
                && name_components(v@.subrange(0, end as int)).last() == v@.subrange(
                a as int,
                b as int,
            ),
            None => name_components(v@.subrange(0, end as int)).len() == 0,
        },
    decreases end,
{
    let ghost s = v@.subrange(0, end as int);
    if end == 0 {
        return None;
    }
    let mut k = end;
    while k > 0 && v[k - 1] != '/'
        invariant
            k <= end <= v@.len(),
            forall|m: int| k <= m < end ==> v@[m] != '/',
        decreases k,
    {
        k = k - 1;
    }
    proof {
        lemma_last_index_of(s, '/');
        if k > 0 {
            lemma_name_components_prefix(s, k - 1);
        } else {
            if last_index_of(s, '/') >= 0 {
                let j = last_index_of(s, '/');
                assert(s[j] == v@[j]);
            }
        }
        assert(s.subrange(last_index_of(s, '/') + 1, s.len() as int) =~= v@.subrange(
            k as int,
            end as int,
        ));
    }
    let is_dot = end - k == 1 && v[k] == '.';
    assert(is_dot == (v@.subrange(k as int, end as int) == seq!['.'])) by {
        if end - k == 1 {
            assert(v@.subrange(k as int, end as int)[0] == v@[k as int]);
            if v@[k as int] == '.' {
                assert(v@.subrange(k as int, end as int) =~= seq!['.']);
            }
        }
    }
    if k == end || is_dot {
        if k == 0 {
            return None;
        }
        assert(s.subrange(0, k - 1) =~= v@.subrange(0, k - 1));
        last_name_component(v, k - 1)
    } else {
        if k > 0 {
            assert(s.subrange(0, k - 1) =~= v@.subrange(0, k - 1));
        }
        Some((k, end))
    }
}

fn is_dotdot(v: &Vec<char>, a: usize, b: usize) -> (r: bool)
    requires
        a <= b <= v@.len(),
    ensures
        r == (v@.subrange(a as int, b as int) == seq!['.', '.']),
{
    let r = b - a == 2 && v[a] == '.' && v[a + 1] == '.';
    proof {
        let piece = v@.subrange(a as int, b as int);
        let dd = seq!['.', '.'];
        assert(dd.len() == 2 && dd[0] == '.' && dd[1] == '.');
        if b - a == 2 {
            assert(piece[0] == v@[a as int]);
            assert(piece[1] == v@[a + 1]);
            if r {
                assert(piece =~= seq!['.', '.']);
            }
        }
    }
    r
}

/// The file name of a path, by the rules of `Path::file_name`.
pub fn file_name_of(v: &Vec<char>) -> (r: Option<(usize, usize)>)
    ensures
        match r {
            Some((a, b)) => a < b <= v@.len() && file_name(v@) == Some(
                v@.subrange(a as int, b as int),
            ),
            None => file_name(v@) is None,
        },
{
    assert(v@.subrange(0, v@.len() as int) =~= v@);
    match last_name_component(v, v.len()) {
        Some((a, b)) => {
            if is_dotdot(v, a, b) {
                None
            } else {
                Some((a, b))
            }
        },
        None => None,
    }
}

/// Index of the last `.` in `v[a..b]`, relative to `a`, or `None`.
fn last_dot_in(v: &Vec<char>, a: usize, b: usize) -> (r: Option<usize>)
    requires
        a <= b <= v@.len(),
    ensures
        match r {
            Some(k) => k as int == last_index_of(v@.subrange(a as int, b as int), '.'),
            None => last_index_of(v@.subrange(a as int, b as int), '.') == -1,
        },
{
    let name = slice_chars(v, a, b);
    last_index_exec(&name, '.')
}

/// Whether a path has a `.md` extension, ignoring ASCII case.
pub open spec fn is_markdown_path(path: Seq<char>) -> bool {
    match extension(path) {
        Some(ext) => eq_ignore_ascii_case(ext, seq!['m', 'd']),
        None => false,
    }
}

/// Returns `true` if `path` has a `.md` extension (case-insensitive).
pub fn is_markdown(path: &str) -> (r: bool)
    ensures
        r == is_markdown_path(path@),
{
    let v = chars_of(path);
    match file_name_of(&v) {
        Some((a, b)) => {
            match last_dot_in(&v, a, b) {
                Some(k) => {
                    if k == 0 {
                        return false;
                    }
                    proof {
                        lemma_last_index_of(v@.subrange(a as int, b as int), '.');
                    }
                    let ext = slice_chars(&v, a + k + 1, b);
                    let mut md: Vec<char> = Vec::new();
                    md.push('m');
                    md.push('d');
                    assert(md@ =~= seq!['m', 'd']);
                    assert(ext@ =~= v@.subrange(a as int, b as int).subrange(
                        k + 1,
                        (b - a) as int,
                    ));
                    chars_eq_ignore_ascii_case(&ext, &md)
                },
                None => false,
            }
        },
        None => false,
    }
}

/// The file stem of a path by the rules of `Path::file_stem`, or the whole
/// path when it has none.
pub open spec fn stem_or_path(path: Seq<char>) -> Seq<char> {
    match file_stem(path) {
        Some(stem) => stem,
        None => path,
    }
}

/// `Path::new(path).file_stem()`, falling back to the path itself.
pub fn file_stem_or_path(path: &str) -> (r: String)
    ensures
        r@ == stem_or_path(path@),
{
    let v = chars_of(path);
    match file_name_of(&v) {
        Some((a, b)) => {
            let end = match last_dot_in(&v, a, b) {
                Some(k) => if k > 0 {
                    proof {
                        lemma_last_index_of(v@.subrange(a as int, b as int), '.');
                    }
                    a + k
                } else {
                    b
                },
                None => b,
            };
            let out = slice_chars(&v, a, end);
            assert(end < b ==> out@ =~= v@.subrange(a as int, b as int).subrange(
                0,
                (end - a) as int,
            ));
            string_from_chars(out.as_slice())
        },
        None => string_from_chars(v.as_slice()),
    }
}

} // verus!
