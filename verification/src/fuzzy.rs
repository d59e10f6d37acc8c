//! Fuzzy file-name matching: a subsequence scorer and the ranking of
//! files by it.

use vstd::prelude::*;
use crate::paths::{after_last_slash, ends_with, md_suffix, strip_md, has_md_suffix};
use crate::search::FuzzyFileRow;
use crate::text::{chars_of, contains_chars, contains_seq, lowercase, slice_chars, string_from_chars, to_lowercase, trim, trimmed_string};
use vstd::string::StrSliceExecFns;

verus! {

/// Positions of `t` matched greedily, left to right, by the characters of
/// `q` from `qi` on, scanning `t` from `ti`; `None` when some character of
/// `q` finds no match.
pub open spec fn greedy_matches(q: Seq<char>, t: Seq<char>, qi: int, ti: int) -> Option<Seq<int>>
    decreases t.len() - ti,
{
    if qi >= q.len() {
        Some(Seq::empty())
    } else if ti < 0 || ti >= t.len() {
        None
    } else if q[qi] == t[ti] {
        match greedy_matches(q, t, qi + 1, ti + 1) {
            Some(m) => Some(seq![ti] + m),
            None => None,
        }
    } else {
        greedy_matches(q, t, qi, ti + 1)
    }
}

/// Number of adjacent pairs of `m` that are consecutive positions.
pub open spec fn consecutive_pairs(m: Seq<int>) -> int
    decreases m.len(),
{
    if m.len() < 2 {
        0
    } else {
        consecutive_pairs(m.drop_last()) + if m.last() == m[m.len() - 2] + 1 {
            1int
        } else {
            0int
        }
    }
}

pub open spec fn starts_with_seq(s: Seq<char>, p: Seq<char>) -> bool {
    s.len() >= p.len() && s.subrange(0, p.len() as int) == p
}

/// The score of a complete match: 100, plus 500 when the query occurs as a
/// substring and 1000 more when it is a prefix, plus 50 per consecutive
/// pair of matched positions, minus the distance between the first and
/// last matched positions.
pub open spec fn match_score(q: Seq<char>, t: Seq<char>, m: Seq<int>) -> int {
    let substring_bonus = if contains_seq(t, q) {
        500 + if starts_with_seq(t, q) {
            1000int
        } else {
            0int
        }
    } else {
        0int
    };
    let spread = if m.len() > 0 {
        m.last() - m[0]
    } else {
        0
    };
    100 + substring_bonus + 50 * consecutive_pairs(m) - spread
}

/// Scores how well `query` matches `target`, both lower-cased: `None` when
/// the query's characters do not all appear in order; an empty query
/// scores 0. The `i64` result wraps as the arithmetic of a release build
/// does.
pub open spec fn fuzzy_score_of(query: Seq<char>, target: Seq<char>) -> Option<i64> {
    if query.len() == 0 {
        Some(0)
    } else {
        let q = lowercase(query);
        let t = lowercase(target);
        match greedy_matches(q, t, 0, 0) {
            Some(m) => Some(match_score(q, t, m) as i64),
            None => None,
        }
    }
}

proof fn lemma_greedy_bounds(q: Seq<char>, t: Seq<char>, qi: int, ti: int)
    requires
        0 <= qi <= q.len(),
        0 <= ti,
    ensures
        greedy_matches(q, t, qi, ti) matches Some(m) ==> m.len() == q.len() - qi && forall|k: int|
            0 <= k < m.len() ==> ti <= #[trigger] m[k] < t.len(),
        greedy_matches(q, t, qi, ti) matches Some(m) ==> forall|a: int, b: int|
            0 <= a < b < m.len() ==> m[a] < m[b],
    decreases t.len() - ti,
{
    if qi < q.len() && ti < t.len() {
        if q[qi] == t[ti] {
            lemma_greedy_bounds(q, t, qi + 1, ti + 1);
            if let Some(m) = greedy_matches(q, t, qi + 1, ti + 1) {
                let r = seq![ti] + m;
                assert forall|k: int| 0 <= k < r.len() implies ti <= #[trigger] r[k] < t.len() by {
                    if k > 0 {
                        assert(r[k] == m[k - 1]);
                    }
                }
                assert forall|a: int, b: int| 0 <= a < b < r.len() implies r[a] < r[b] by {
                    assert(r[b] == m[b - 1]);
                    if a > 0 {
                        assert(r[a] == m[a - 1]);
                    }
                }
            }
        } else {
            lemma_greedy_bounds(q, t, qi, ti + 1);
        }
    }
}

/// `m` places the characters of `q[qi..]` in `t` at strictly increasing
/// positions, none before `ti`.
pub open spec fn embeds_at(q: Seq<char>, t: Seq<char>, qi: int, ti: int, m: Seq<int>) -> bool {
    &&& m.len() == q.len() - qi
    &&& forall|k: int| 0 <= k < m.len() ==> ti <= #[trigger] m[k] < t.len() && t[m[k]] == q[qi + k]
    &&& forall|a: int, b: int| 0 <= a < b < m.len() ==> m[a] < m[b]
}

/// The characters of `q` all appear in `t`, in order.
pub open spec fn is_subsequence(q: Seq<char>, t: Seq<char>) -> bool {
    exists|m: Seq<int>| embeds_at(q, t, 0, 0, m)
}

proof fn lemma_greedy_complete(q: Seq<char>, t: Seq<char>, qi: int, ti: int, m: Seq<int>)
    requires
        0 <= qi <= q.len(),
        0 <= ti,
        embeds_at(q, t, qi, ti, m),
    ensures
        greedy_matches(q, t, qi, ti) is Some,
    decreases t.len() - ti,
{
    if qi < q.len() {
        assert(m.len() > 0);
        assert(ti <= m[0] < t.len());
        let rest = m.drop_first();
        if q[qi] == t[ti] {
            assert forall|k: int| 0 <= k < rest.len() implies ti + 1 <= #[trigger] rest[k] < t.len()
                && t[rest[k]] == q[qi + 1 + k] by {
                assert(rest[k] == m[k + 1]);
                assert(m[0] < m[k + 1]);
            }
            assert forall|a: int, b: int| 0 <= a < b < rest.len() implies rest[a] < rest[b] by {
                assert(rest[a] == m[a + 1] && rest[b] == m[b + 1]);
            }
            lemma_greedy_complete(q, t, qi + 1, ti + 1, rest);
        } else {
            assert(t[m[0]] == q[qi]);
            assert(m[0] != ti);
            assert forall|k: int| 0 <= k < m.len() implies ti + 1 <= #[trigger] m[k] < t.len()
                && t[m[k]] == q[qi + k] by {
                if k > 0 {
                    assert(m[0] < m[k]);
                }
            }
            lemma_greedy_complete(q, t, qi, ti + 1, m);
        }
    }
}

proof fn lemma_greedy_sound(q: Seq<char>, t: Seq<char>, qi: int, ti: int)
    requires
        0 <= qi <= q.len(),
        0 <= ti,
    ensures
        greedy_matches(q, t, qi, ti) matches Some(m) ==> embeds_at(q, t, qi, ti, m),
    decreases t.len() - ti,
{
    lemma_greedy_bounds(q, t, qi, ti);
    if qi < q.len() && ti < t.len() {
        if q[qi] == t[ti] {
            lemma_greedy_sound(q, t, qi + 1, ti + 1);
            if let Some(m) = greedy_matches(q, t, qi + 1, ti + 1) {
                let r = seq![ti] + m;
                assert forall|k: int| 0 <= k < r.len() implies ti <= #[trigger] r[k] < t.len()
                    && t[r[k]] == q[qi + k] by {
                    if k > 0 {
                        assert(r[k] == m[k - 1]);
                    }
                }
            }
        } else {
            lemma_greedy_sound(q, t, qi, ti + 1);
        }
    }
}

/// A query scores exactly when it is empty or its characters all appear,
/// in order, in the target (both lower-cased): `None` means that some
/// character of the query could not be matched.
pub proof fn fuzzy_score_none_iff_not_subsequence(query: Seq<char>, target: Seq<char>)
    ensures
        fuzzy_score_of(query, target) is None <==> (query.len() > 0 && !is_subsequence(
            lowercase(query),
            lowercase(target),
        )),
{
    if query.len() > 0 {
        let q = lowercase(query);
        let t = lowercase(target);
        lemma_greedy_sound(q, t, 0, 0);
        if is_subsequence(q, t) {
            let m = choose|m: Seq<int>| embeds_at(q, t, 0, 0, m);
            lemma_greedy_complete(q, t, 0, 0, m);
        }
    }
}

/// Scores how well `query` matches `target`.
/// Returns `None` if not all query characters are present in order.
/// Higher scores are better matches.
pub fn fuzzy_score(query: &str, target: &str) -> (r: Option<i64>)
    ensures
        r == fuzzy_score_of(query@, target@),
{
    if query.unicode_len() == 0 {
        return Some(0);
    }
    let q = chars_of(to_lowercase(query).as_str());
    let t = chars_of(to_lowercase(target).as_str());
    let mut matches: Vec<usize> = Vec::new();
    let mut qi: usize = 0;
    let mut ti: usize = 0;
    proof {
        lemma_greedy_bounds(q@, t@, 0, 0);
    }
    while qi < q.len() && ti < t.len()
        invariant
            qi <= q@.len(),
            ti <= t@.len(),
            matches@.len() == qi,
            forall|k: int| 0 <= k < qi ==> (#[trigger] matches@[k]) < ti,
            forall|a: int, b: int| 0 <= a < b < qi ==> matches@[a] < matches@[b],
            greedy_matches(q@, t@, 0, 0) == match greedy_matches(q@, t@, qi as int, ti as int) {
                Some(m) => Some(matches@.map_values(|x: usize| x as int) + m),
                None => None,
            },
        decreases t@.len() - ti,
    {
        let ghost before = matches@.map_values(|x: usize| x as int);
        if q[qi] == t[ti] {
            matches.push(ti);
            proof {
                assert(matches@.map_values(|x: usize| x as int) =~= before.push(ti as int));
                match greedy_matches(q@, t@, qi + 1, ti + 1) {
                    Some(m) => {
                        assert(before + (seq![ti as int] + m) =~= before.push(ti as int) + m);
                    },
                    None => {},
                }
            }
            qi = qi + 1;
        }
        ti = ti + 1;
    }
    if qi < q.len() {
        return None;
    }
    let ghost mv = matches@.map_values(|x: usize| x as int);
    assert(greedy_matches(q@, t@, qi as int, ti as int) == Some(Seq::<int>::empty()));
    assert(mv + Seq::<int>::empty() =~= mv);
    let mut score: i128 = 100;
    if contains_chars(&t, &q) {
        score = score + 500;
        let mut prefix = q.len() <= t.len();
        if prefix {
            let head = slice_chars(&t, 0, q.len());
            prefix = crate::order::chars_equal(&head, &q);
        }
        if prefix {
            score = score + 1000;
        }
    }
    let mut consecutive: usize = 0;
    if matches.len() > 0 {
        let mut k: usize = 1;
        assert(consecutive_pairs(mv.take(1)) == 0);
        while k < matches.len()
            invariant
                1 <= k <= matches@.len(),
                mv == matches@.map_values(|x: usize| x as int),
                consecutive as int == consecutive_pairs(mv.take(k as int)),
                consecutive <= k,
            decreases matches@.len() - k,
        {
            assert(mv.take(k + 1).drop_last() =~= mv.take(k as int));
            assert(mv.take(k + 1).last() == matches@[k as int]);
            assert(mv.take(k + 1)[k - 1] == matches@[k - 1]);
            if matches[k] > 0 && matches[k] - 1 == matches[k - 1] {
                consecutive = consecutive + 1;
            }
            k = k + 1;
        }
        assert(mv.take(k as int) =~= mv);
    } else {
        assert(consecutive_pairs(mv) == 0);
    }
    score = score + (consecutive as i128) * 50;
    if matches.len() > 0 {
        let first = matches[0];
        let last = matches[matches.len() - 1];
        assert(first <= last) by {
            if matches@.len() > 1 {
                assert(matches@[0] < matches@[matches@.len() - 1]);
            }
        }
        score = score - (last - first) as i128;
    }
    Some(score as i64)
}

// ---------------------------------------------------------------------------
// Ranking files
// ---------------------------------------------------------------------------

/// A file's name for an empty query: the last path piece without `.md`,
/// or the whole path when that piece has no `.md` suffix.
pub open spec fn listing_name(path: Seq<char>) -> Seq<char> {
    if ends_with(after_last_slash(path), md_suffix()) {
        strip_md(after_last_slash(path))
    } else {
        path
    }
}

pub open spec fn row_view(r: FuzzyFileRow) -> (Seq<char>, Seq<char>, i64) {
    (r.path@, r.name@, r.score)
}

pub open spec fn row_views(v: Seq<FuzzyFileRow>) -> Seq<(Seq<char>, Seq<char>, i64)> {
    v.map_values(|r: FuzzyFileRow| row_view(r))
}

/// Inserts `x` after every element scoring at least as much (stable,
/// highest score first).
pub open spec fn insert_by_score(
    s: Seq<(Seq<char>, Seq<char>, i64)>,
    x: (Seq<char>, Seq<char>, i64),
) -> Seq<(Seq<char>, Seq<char>, i64)>
    decreases s.len(),
{
    if s.len() == 0 {
        seq![x]
    } else if s.last().2 >= x.2 {
        s.push(x)
    } else {
        insert_by_score(s.drop_last(), x).push(s.last())
    }
}

/// A stable sort by score, highest first.
pub open spec fn sort_by_score(s: Seq<(Seq<char>, Seq<char>, i64)>) -> Seq<
    (Seq<char>, Seq<char>, i64),
>
    decreases s.len(),
{
    if s.len() == 0 {
        Seq::empty()
    } else {
        insert_by_score(sort_by_score(s.drop_last()), s.last())
    }
}

/// The scored rows: each path whose name stem matches the query, in the
/// order given.
pub open spec fn scored_rows(query: Seq<char>, paths: Seq<Seq<char>>) -> Seq<
    (Seq<char>, Seq<char>, i64),
>
    decreases paths.len(),
{
    if paths.len() == 0 {
        Seq::empty()
    } else {
        let prev = scored_rows(query, paths.drop_last());
        let p = paths.last();
        let name = strip_md(after_last_slash(p));
        match fuzzy_score_of(query, name) {
            Some(sc) => prev.push((p, name, sc)),
            None => prev,
        }
    }
}

pub open spec fn take_up_to<A>(s: Seq<A>, n: int) -> Seq<A> {
    if n < s.len() {
        s.take(n)
    } else {
        s
    }
}

/// The fuzzy file matches for a query over the indexed paths (in path
/// order): for a blank query the first `limit` files with score 0; else
/// the matching files, best first (ties in path order), at most `limit`.
pub open spec fn fuzzy_rows_of(query: Seq<char>, paths: Seq<Seq<char>>, limit: int) -> Seq<
    (Seq<char>, Seq<char>, i64),
> {
    if trim(query).len() == 0 {
        take_up_to(paths, limit).map_values(|p: Seq<char>| (p, listing_name(p), 0i64))
    } else {
        take_up_to(sort_by_score(scored_rows(trim(query), paths)), limit)
    }
}

proof fn lemma_insert_by_score(
    s: Seq<(Seq<char>, Seq<char>, i64)>,
    x: (Seq<char>, Seq<char>, i64),
    p: int,
)
    requires
        0 <= p <= s.len(),
        forall|k: int| p <= k < s.len() ==> (#[trigger] s[k]).2 < x.2,
        p > 0 ==> s[p - 1].2 >= x.2,
    ensures
        insert_by_score(s, x) == s.insert(p, x),
    decreases s.len(),
{
    if s.len() == 0 {
        assert(s.insert(p, x) =~= seq![x]);
    } else if p == s.len() {
        assert(s.insert(p, x) =~= s.push(x));
    } else {
        let init = s.drop_last();
        assert forall|k: int| p <= k < init.len() implies (#[trigger] init[k]).2 < x.2 by {
            assert(init[k] == s[k]);
        }
        if p > 0 {
            assert(init[p - 1] == s[p - 1]);
        }
        lemma_insert_by_score(init, x, p);
        assert(init.insert(p, x).push(s.last()) =~= s.insert(p, x));
    }
}

fn copy_row(r: &FuzzyFileRow) -> (c: FuzzyFileRow)
    ensures
        row_view(c) == row_view(*r),
{
    FuzzyFileRow { path: r.path.clone(), name: r.name.clone(), score: r.score }
}

/// Fuzzy-matches file names (the last path piece without `.md`) against
/// `query`, for the indexed `paths` in path order.
pub fn fuzzy_file_rows(query: &str, paths: &Vec<String>, limit: usize) -> (r: Vec<FuzzyFileRow>)
    ensures
        row_views(r@) == fuzzy_rows_of(query@, paths@.map_values(|p: String| p@), limit as int),
{
    let ghost pv = paths@.map_values(|p: String| p@);
    let qv = chars_of(query);
    let trimmed = trimmed_string(&qv, 0, qv.len());
    assert(qv@.subrange(0, qv@.len() as int) =~= qv@);
    let mut out: Vec<FuzzyFileRow> = Vec::new();
    if trimmed.as_str().unicode_len() == 0 {
        let n = if limit < paths.len() {
            limit
        } else {
            paths.len()
        };
        let ghost tk = take_up_to(pv, limit as int);
        assert(tk =~= pv.take(n as int));
        let mut i: usize = 0;
        while i < n
            invariant
                i <= n <= paths@.len(),
                pv == paths@.map_values(|p: String| p@),
                tk == pv.take(n as int),
                row_views(out@) == tk.take(i as int).map_values(
                    |p: Seq<char>| (p, listing_name(p), 0i64),
                ),
            decreases n - i,
        {
            let p = &paths[i];
            let v = chars_of(p.as_str());
            let vn = v.len();
            let start = if let Some(k) = crate::paths::last_index_exec(&v, '/') {
                proof {
                    crate::paths::lemma_last_index_of(v@, '/');
                }
                assert(k < vn);
                k + 1
            } else {
                0
            };
            let piece = slice_chars(&v, start, v.len());
            let name = if has_md_suffix(&piece) {
                let stem = slice_chars(&piece, 0, piece.len() - 3);
                string_from_chars(stem.as_slice())
            } else {
                p.clone()
            };
            let ghost before = row_views(out@);
            out.push(FuzzyFileRow { path: p.clone(), name, score: 0 });
            proof {
                assert(tk[i as int] == p@);
                assert(row_views(out@) =~= before.push((p@, listing_name(p@), 0i64)));
                assert(tk.take(i + 1).map_values(|p: Seq<char>| (p, listing_name(p), 0i64))
                    =~= tk.take(i as int).map_values(|p: Seq<char>| (p, listing_name(p), 0i64)).push(
                    (p@, listing_name(p@), 0i64),
                ));
            }
            i = i + 1;
        }
        assert(tk.take(n as int) =~= tk);
        return out;
    }
    // Score every file, in path order.
    let mut scored: Vec<FuzzyFileRow> = Vec::new();
    let mut i: usize = 0;
    assert(pv.take(0) =~= Seq::<Seq<char>>::empty());
    while i < paths.len()
        invariant
            i <= paths@.len(),
            pv == paths@.map_values(|p: String| p@),
            trimmed@ == trim(query@),
            row_views(scored@) == scored_rows(trim(query@), pv.take(i as int)),
        decreases paths@.len() - i,
    {
        let p = &paths[i];
        let v = chars_of(p.as_str());
        let vn = v.len();
        let start = if let Some(k) = crate::paths::last_index_exec(&v, '/') {
            proof {
                crate::paths::lemma_last_index_of(v@, '/');
            }
            assert(k < vn);
            k + 1
        } else {
            0
        };
        let piece = slice_chars(&v, start, v.len());
        let end = if has_md_suffix(&piece) {
            piece.len() - 3
        } else {
            piece.len()
        };
        let stem = slice_chars(&piece, 0, end);
        assert(end == piece@.len() ==> stem@ =~= piece@);
        let name = string_from_chars(stem.as_slice());
        assert(pv.take(i + 1).drop_last() =~= pv.take(i as int));
        assert(pv.take(i + 1).last() == p@);
        let ghost before = row_views(scored@);
        match fuzzy_score(trimmed.as_str(), name.as_str()) {
            Some(score) => {
                scored.push(FuzzyFileRow { path: p.clone(), name, score });
                assert(row_views(scored@) =~= before.push((p@, stem@, score)));
            },
            None => {},
        }
        i = i + 1;
    }
    assert(pv.take(i as int) =~= pv);
    // Stable sort, highest score first.
    let ghost sv = row_views(scored@);
    let mut k: usize = 0;
    assert(sv.take(0) =~= Seq::<(Seq<char>, Seq<char>, i64)>::empty());
    while k < scored.len()
        invariant
            k <= scored@.len(),
            sv == row_views(scored@),
            row_views(out@) == sort_by_score(sv.take(k as int)),
        decreases scored@.len() - k,
    {
        let x = &scored[k];
        let ghost ov = row_views(out@);
        let mut p = out.len();
        while p > 0 && out[p - 1].score < x.score
            invariant
                p <= out@.len(),
                ov == row_views(out@),
                forall|q: int| p <= q < ov.len() ==> (#[trigger] ov[q]).2 < x.score,
            decreases p,
        {
            p = p - 1;
        }
        proof {
            lemma_insert_by_score(ov, row_view(*x), p as int);
            assert(sv.take(k + 1).drop_last() =~= sv.take(k as int));
            assert(sv.take(k + 1).last() == row_view(*x));
        }
        out.insert(p, copy_row(x));
        assert(row_views(out@) =~= ov.insert(p as int, row_view(*x)));
        k = k + 1;
    }
    assert(sv.take(k as int) =~= sv);
    out.truncate(limit);
    assert(row_views(out@) =~= take_up_to(sort_by_score(sv), limit as int));
    out
}

} // verus!
