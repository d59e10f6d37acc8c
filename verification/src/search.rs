//! Search ranking: filename, full-text and heading matches merged into one
//! ranked list.
//!
//! Each match becomes a candidate with an integer score — filename matches
//! `5000 + fuzzy score`, full-text matches `3000 + title bonus + BM25
//! score`, heading matches `2000 - level`. Per path the first candidate
//! with the highest score is kept; results are ordered by score, highest
//! first, then by path, and cut to the requested limit.

use vstd::prelude::*;
use crate::order::{lex_less, lex_lt, lemma_lex_asymmetric, lemma_lex_irreflexive, lemma_lex_total, lemma_lex_transitive, chars_equal};
use crate::paths::{eq_ignore_ascii_case, chars_eq_ignore_ascii_case, file_stem_or_path, stem_or_path};
use crate::resolve::NoteId;
use vstd::string::StrSliceExecFns;
use crate::text::{append_chars, chars_of, contains_chars, contains_seq, is_ws, lowercase, string_from_chars, to_lowercase, trim, trimmed_string};

verus! {

/// A single fuzzy file-name match.
#[derive(Debug, Clone)]
pub struct FuzzyFileRow {
    pub path: String,
    pub name: String,
    pub score: i64,
}

/// A heading whose text matches a search term.
#[derive(Debug, Clone)]
pub struct HeadingSearchRow {
    pub file_id: NoteId,
    pub file_path: String,
    pub level: u8,
    pub text: String,
}

/// A heading search result.
#[derive(Debug, Clone)]
pub struct HeadingResult {
    pub file_id: NoteId,
    pub file_path: String,
    pub level: u8,
    pub text: String,
}

/// A full-text match: path, stored title, snippet, and its BM25 rank as an
/// integer score in `-1000..=1000`.
#[derive(Debug, Clone)]
pub struct FtsHit {
    pub path: String,
    pub title: String,
    pub snippet: String,
    pub bm25: i64,
}

/// Which match a ranked result came from.
#[derive(Debug, Clone, Copy, PartialEq, Eq)]
pub enum RankSource {
    /// A filename match with its fuzzy score.
    Filename(i64),
    /// The full-text match at this position of the full-text rows.
    FullText(usize),
    /// A heading match of this level.
    Heading(u8),
}

/// A ranked search result.
#[derive(Debug, Clone)]
pub struct RankedResult {
    pub path: String,
    pub title: String,
    pub snippet: String,
    pub score: i64,
    pub source: RankSource,
}

/// A result as plain values: path, title, snippet, score, source.
pub type ResultView = (Seq<char>, Seq<char>, Seq<char>, int, RankSource);

impl RankedResult {
    pub open spec fn view5(self) -> ResultView {
        (self.path@, self.title@, self.snippet@, self.score as int, self.source)
    }
}

pub open spec fn result_views(v: Seq<RankedResult>) -> Seq<ResultView> {
    v.map_values(|r: RankedResult| r.view5())
}

// ---------------------------------------------------------------------------
// Titles and snippets
// ---------------------------------------------------------------------------

/// A display title: the trimmed title when it is not empty, else the
/// path's file stem (or the path itself when it has none).
pub open spec fn display_title(title: Seq<char>, path: Seq<char>) -> Seq<char> {
    if trim(title).len() > 0 {
        trim(title)
    } else {
        stem_or_path(path)
    }
}

pub fn title_from_name_or_path(title: &str, path: &str) -> (r: String)
    ensures
        r@ == display_title(title@, path@),
{
    let v = chars_of(title);
    let trimmed = trimmed_string(&v, 0, v.len());
    assert(v@.subrange(0, v@.len() as int) =~= v@);
    if trimmed.as_str().unicode_len() > 0 {
        return trimmed;
    }
    file_stem_or_path(path)
}

/// The separator between a title and a path in generated snippets.
pub open spec fn middle_dot_sep() -> Seq<char> {
    seq![' ', '\u{b7}', ' ']
}

/// A stored snippet, or `<title> · <path>` when it is blank.
pub open spec fn snippet_text(snippet: Seq<char>, title: Seq<char>, path: Seq<char>) -> Seq<char> {
    if trim(snippet).len() > 0 {
        trim(snippet)
    } else {
        display_title(title, path) + middle_dot_sep() + path
    }
}

fn middle_dot_chars() -> (r: Vec<char>)
    ensures
        r@ == middle_dot_sep(),
{
    let mut v: Vec<char> = Vec::new();
    v.push(' ');
    v.push('\u{b7}');
    v.push(' ');
    assert(v@ =~= middle_dot_sep());
    v
}

pub fn normalize_snippet(snippet: &str, title: &str, path: &str) -> (r: String)
    ensures
        r@ == snippet_text(snippet@, title@, path@),
{
    let v = chars_of(snippet);
    let trimmed = trimmed_string(&v, 0, v.len());
    assert(v@.subrange(0, v@.len() as int) =~= v@);
    if trimmed.as_str().unicode_len() > 0 {
        return trimmed;
    }
    let mut out = chars_of(title_from_name_or_path(title, path).as_str());
    append_chars(&mut out, &middle_dot_chars());
    append_chars(&mut out, &chars_of(path));
    string_from_chars(out.as_slice())
}

/// `"Filename match · <path>"`.
pub open spec fn filename_snippet(path: Seq<char>) -> Seq<char> {
    seq!['F', 'i', 'l', 'e', 'n', 'a', 'm', 'e', ' ', 'm', 'a', 't', 'c', 'h'] + middle_dot_sep()
        + path
}

/// `"Heading match · <#…#> <text>"`, with one `#` per level.
pub open spec fn heading_snippet(level: u8, text: Seq<char>) -> Seq<char> {
    seq!['H', 'e', 'a', 'd', 'i', 'n', 'g', ' ', 'm', 'a', 't', 'c', 'h'] + middle_dot_sep()
        + Seq::new(level as nat, |i: int| '#') + seq![' '] + text
}

fn filename_snippet_exec(path: &str) -> (r: String)
    ensures
        r@ == filename_snippet(path@),
{
    let mut v: Vec<char> = Vec::new();
    v.push('F');
    v.push('i');
    v.push('l');
    v.push('e');
    v.push('n');
    v.push('a');
    v.push('m');
    v.push('e');
    v.push(' ');
    v.push('m');
    v.push('a');
    v.push('t');
    v.push('c');
    v.push('h');
    let ghost head = v@;
    append_chars(&mut v, &middle_dot_chars());
    append_chars(&mut v, &chars_of(path));
    assert(v@ =~= filename_snippet(path@));
    string_from_chars(v.as_slice())
}

fn heading_snippet_exec(level: u8, text: &str) -> (r: String)
    ensures
        r@ == heading_snippet(level, text@),
{
    let mut v: Vec<char> = Vec::new();
    v.push('H');
    v.push('e');
    v.push('a');
    v.push('d');
    v.push('i');
    v.push('n');
    v.push('g');
    v.push(' ');
    v.push('m');
    v.push('a');
    v.push('t');
    v.push('c');
    v.push('h');
    append_chars(&mut v, &middle_dot_chars());
    let ghost head = v@;
    let mut k: u8 = 0;
    while k < level
        invariant
            k <= level,
            v@ == head + Seq::new(k as nat, |i: int| '#'),
        decreases level - k,
    {
        v.push('#');
        k = k + 1;
        assert(v@ =~= head + Seq::new(k as nat, |i: int| '#'));
    }
    v.push(' ');
    append_chars(&mut v, &chars_of(text));
    assert(v@ =~= heading_snippet(level, text@));
    string_from_chars(v.as_slice())
}

/// The bonus a full-text match gets from its title: 1200 when the trimmed
/// title equals the query ignoring ASCII case, else 500 when the lower-cased
/// title contains the lower-cased query, else 0.
pub open spec fn title_bonus(title: Seq<char>, query: Seq<char>) -> int {
    if eq_ignore_ascii_case(trim(title), query) {
        1200
    } else if contains_seq(lowercase(title), lowercase(query)) {
        500
    } else {
        0
    }
}

fn title_bonus_exec(title: &str, query: &str, query_lower: &Vec<char>) -> (r: i64)
    requires
        query_lower@ == lowercase(query@),
    ensures
        r as int == title_bonus(title@, query@),
{
    let tv = chars_of(title);
    let trimmed = chars_of(trimmed_string(&tv, 0, tv.len()).as_str());
    assert(tv@.subrange(0, tv@.len() as int) =~= tv@);
    if chars_eq_ignore_ascii_case(&trimmed, &chars_of(query)) {
        return 1200;
    }
    let lowered = chars_of(to_lowercase(title).as_str());
    if contains_chars(&lowered, query_lower) {
        500
    } else {
        0
    }
}

// ---------------------------------------------------------------------------
// Candidates
// ---------------------------------------------------------------------------

pub open spec fn fuzzy_candidate(row: FuzzyFileRow) -> ResultView {
    (
        row.path@,
        display_title(row.name@, row.path@),
        filename_snippet(row.path@),
        5000 + row.score,
        RankSource::Filename(row.score),
    )
}

pub open spec fn fts_candidate(i: int, row: FtsHit, query: Seq<char>) -> ResultView {
    let title = display_title(row.title@, row.path@);
    (
        row.path@,
        title,
        snippet_text(row.snippet@, title, row.path@),
        3000 + title_bonus(row.title@, query) + row.bm25,
        RankSource::FullText(i as usize),
    )
}

pub open spec fn heading_candidate(row: HeadingSearchRow) -> ResultView {
    (
        row.file_path@,
        display_title(Seq::empty(), row.file_path@),
        heading_snippet(row.level, row.text@),
        2000 - row.level,
        RankSource::Heading(row.level),
    )
}

/// All candidates in the order they are considered: filename matches, then
/// full-text matches, then heading matches.
pub open spec fn candidates(
    fuzzy: Seq<FuzzyFileRow>,
    fts: Seq<FtsHit>,
    headings: Seq<HeadingSearchRow>,
    query: Seq<char>,
) -> Seq<ResultView> {
    fuzzy.map_values(|r: FuzzyFileRow| fuzzy_candidate(r)) + fts.map(
        |i: int, r: FtsHit| fts_candidate(i, r, query),
    ) + headings.map_values(|r: HeadingSearchRow| heading_candidate(r))
}

/// First index of a result with path `p`, or `-1`.
pub open spec fn path_index(acc: Seq<ResultView>, p: Seq<char>) -> int
    decreases acc.len(),
{
    if acc.len() == 0 {
        -1
    } else if path_index(acc.drop_last(), p) >= 0 {
        path_index(acc.drop_last(), p)
    } else if acc.last().0 == p {
        acc.len() - 1
    } else {
        -1
    }
}

/// Adds a candidate: a new path is appended; a known path is replaced only
/// by a strictly higher score.
pub open spec fn insert_candidate(acc: Seq<ResultView>, c: ResultView) -> Seq<ResultView> {
    let i = path_index(acc, c.0);
    if i < 0 {
        acc.push(c)
    } else if c.3 > acc[i].3 {
        acc.update(i, c)
    } else {
        acc
    }
}

/// The best candidate per path, in order of first appearance.
pub open spec fn merge_candidates(cands: Seq<ResultView>) -> Seq<ResultView>
    decreases cands.len(),
{
    if cands.len() == 0 {
        Seq::empty()
    } else {
        insert_candidate(merge_candidates(cands.drop_last()), cands.last())
    }
}

/// `a` ranks before `b`: a higher score, or the same score and a path that
/// sorts first.
pub open spec fn ranks_before(a: ResultView, b: ResultView) -> bool {
    a.3 > b.3 || (a.3 == b.3 && lex_lt(a.0, b.0))
}

/// `out` holds the elements of `merged`, each once, in rank order.
pub open spec fn rank_sorted(merged: Seq<ResultView>, out: Seq<ResultView>) -> bool {
    &&& out.len() == merged.len()
    &&& forall|i: int, j: int| 0 <= i < j < out.len() ==> ranks_before(out[i], out[j])
    &&& forall|i: int| 0 <= i < merged.len() ==> #[trigger] out.contains(merged[i])
    &&& forall|i: int| 0 <= i < out.len() ==> #[trigger] merged.contains(out[i])
}

/// The search results for a query: the merged candidates in rank order,
/// at most `limit` of them.
pub open spec fn search_results(
    fuzzy: Seq<FuzzyFileRow>,
    fts: Seq<FtsHit>,
    headings: Seq<HeadingSearchRow>,
    query: Seq<char>,
    limit: int,
    out: Seq<ResultView>,
) -> bool {
    exists|sorted: Seq<ResultView>|
        rank_sorted(merge_candidates(candidates(fuzzy, fts, headings, query)), sorted) && out
            == sorted.take(if limit < sorted.len() {
            limit
        } else {
            sorted.len() as int
        })
}

// ---------------------------------------------------------------------------
// Merging and sorting
// ---------------------------------------------------------------------------

proof fn lemma_path_index(acc: Seq<ResultView>, p: Seq<char>)
    ensures
        -1 <= path_index(acc, p) < acc.len(),
        path_index(acc, p) >= 0 ==> acc[path_index(acc, p)].0 == p,
        path_index(acc, p) < 0 ==> forall|k: int| 0 <= k < acc.len() ==> (#[trigger] acc[k]).0 != p,
    decreases acc.len(),
{
    if acc.len() > 0 {
        lemma_path_index(acc.drop_last(), p);
        if path_index(acc.drop_last(), p) < 0 {
            assert forall|k: int| 0 <= k < acc.len() - 1 implies (#[trigger] acc[k]).0 != p by {
                assert(acc[k] == acc.drop_last()[k]);
            }
        } else {
            assert(acc[path_index(acc, p)] == acc.drop_last()[path_index(acc, p)]);
        }
    }
}

proof fn lemma_path_index_first(acc: Seq<ResultView>, p: Seq<char>, i: int)
    requires
        0 <= i < acc.len(),
        acc[i].0 == p,
        forall|k: int| 0 <= k < i ==> (#[trigger] acc[k]).0 != p,
    ensures
        path_index(acc, p) == i,
    decreases acc.len(),
{
    let init = acc.drop_last();
    if i < acc.len() - 1 {
        assert forall|k: int| 0 <= k < i implies (#[trigger] init[k]).0 != p by {
            assert(init[k] == acc[k]);
        }
        lemma_path_index_first(init, p, i);
    } else {
        lemma_path_index(init, p);
        if path_index(init, p) >= 0 {
            assert(init[path_index(init, p)] == acc[path_index(init, p)]);
        }
    }
}

/// Paths are pairwise distinct.
pub open spec fn distinct_paths(acc: Seq<ResultView>) -> bool {
    forall|i: int, j: int| 0 <= i < j < acc.len() ==> acc[i].0 != acc[j].0
}

proof fn lemma_merge_distinct(cands: Seq<ResultView>)
    ensures
        distinct_paths(merge_candidates(cands)),
    decreases cands.len(),
{
    if cands.len() > 0 {
        lemma_merge_distinct(cands.drop_last());
        let acc = merge_candidates(cands.drop_last());
        let c = cands.last();
        lemma_path_index(acc, c.0);
        let r = insert_candidate(acc, c);
        assert forall|i: int, j: int| 0 <= i < j < r.len() implies r[i].0 != r[j].0 by {
            if path_index(acc, c.0) < 0 {
                if j == acc.len() {
                    assert(r[i] == acc[i]);
                }
            } else {
                let k = path_index(acc, c.0);
                if i != k && j != k {
                } else if i == k {
                    if c.3 > acc[k].3 {
                        assert(r[i].0 == acc[k].0);
                    }
                } else {
                    if c.3 > acc[k].3 {
                        assert(r[j].0 == acc[k].0);
                    }
                }
            }
        }
    }
}

proof fn lemma_rank_transitive(a: ResultView, b: ResultView, c: ResultView)
    requires
        ranks_before(a, b),
        ranks_before(b, c),
    ensures
        ranks_before(a, c),
{
    if a.3 == b.3 && b.3 == c.3 {
        lemma_lex_transitive(a.0, b.0, c.0);
    }
}

proof fn lemma_rank_total(a: ResultView, b: ResultView)
    requires
        a.0 != b.0,
    ensures
        ranks_before(a, b) || ranks_before(b, a),
{
    lemma_lex_total(a.0, b.0);
}

fn copy_result(r: &RankedResult) -> (c: RankedResult)
    ensures
        c.view5() == r.view5(),
{
    RankedResult {
        path: r.path.clone(),
        title: r.title.clone(),
        snippet: r.snippet.clone(),
        score: r.score,
        source: r.source,
    }
}

fn insert_candidate_exec(acc: &mut Vec<RankedResult>, c: RankedResult)
    ensures
        result_views(final(acc)@) == insert_candidate(result_views(old(acc)@), c.view5()),
{
    let ghost av = result_views(acc@);
    proof {
        lemma_path_index(av, c.path@);
    }
    let cp = chars_of(c.path.as_str());
    let mut i: usize = 0;
    while i < acc.len()
        invariant
            i <= acc@.len(),
            acc@ == old(acc)@,
            av == result_views(acc@),
            cp@ == c.path@,
            forall|k: int| 0 <= k < i ==> (#[trigger] av[k]).0 != cp@,
        decreases acc@.len() - i,
    {
        assert(av[i as int].0 == acc@[i as int].path@);
        if chars_equal(&chars_of(acc[i].path.as_str()), &cp) {
            proof {
                lemma_path_index_first(av, c.path@, i as int);
            }
            let ghost cv = c.view5();
            assert(av[i as int].3 == acc@[i as int].score);
            if c.score > acc[i].score {
                acc.set(i, c);
                assert(result_views(acc@) =~= av.update(i as int, cv));
            } else {
                assert(result_views(acc@) == av);
            }
            assert(result_views(acc@) == insert_candidate(av, cv));
            return;
        }
        i = i + 1;
    }
    assert(path_index(av, c.path@) < 0) by {
        if path_index(av, c.path@) >= 0 {
            assert(av[path_index(av, c.path@)].0 == c.path@);
        }
    }
    acc.push(c);
    assert(result_views(acc@) =~= av.push(c.view5()));
}

fn ranks_before_exec(a: &RankedResult, b: &RankedResult) -> (r: bool)
    ensures
        r == ranks_before(a.view5(), b.view5()),
{
    if a.score != b.score {
        return a.score > b.score;
    }
    lex_less(&chars_of(a.path.as_str()), &chars_of(b.path.as_str()))
}

/// Sorts results with distinct paths into rank order.
fn sort_ranked(merged: &Vec<RankedResult>) -> (r: Vec<RankedResult>)
    requires
        distinct_paths(result_views(merged@)),
    ensures
        rank_sorted(result_views(merged@), result_views(r@)),
{
    let ghost mv = result_views(merged@);
    let mut out: Vec<RankedResult> = Vec::new();
    let mut k: usize = 0;
    assert(result_views(out@) =~= Seq::<ResultView>::empty());
    while k < merged.len()
        invariant
            k <= merged@.len(),
            mv == result_views(merged@),
            distinct_paths(mv),
            rank_sorted(mv.take(k as int), result_views(out@)),
        decreases merged@.len() - k,
    {
        let x = &merged[k];
        let ghost xv = x.view5();
        let ghost ov = result_views(out@);
        let ghost pre = mv.take(k as int);
        let ghost post = mv.take(k + 1);
        assert(post =~= pre.push(xv));
        assert(mv[k as int] == xv);
        let mut p: usize = 0;
        while p < out.len() && ranks_before_exec(&out[p], x)
            invariant
                p <= out@.len(),
                ov == result_views(out@),
                xv == x.view5(),
                forall|q: int| 0 <= q < p ==> ranks_before(#[trigger] ov[q], xv),
            decreases out@.len() - p,
        {
            p = p + 1;
        }
        proof {
            assert forall|q: int| 0 <= q < ov.len() implies (#[trigger] ov[q]).0 != xv.0 by {
                assert(pre.contains(ov[q]));
                let m = choose|m: int| 0 <= m < pre.len() && pre[m] == ov[q];
                assert(pre[m] == mv[m]);
            }
        }
        out.insert(p, copy_result(x));
        proof {
            let nv = result_views(out@);
            assert(nv =~= ov.insert(p as int, xv));
            assert forall|i: int, j: int| 0 <= i < j < nv.len() implies ranks_before(
                nv[i],
                nv[j],
            ) by {
                if j < p {
                    assert(nv[i] == ov[i] && nv[j] == ov[j]);
                } else if j == p {
                    assert(nv[i] == ov[i]);
                } else if i < p {
                    assert(nv[j] == ov[j - 1]);
                    assert(nv[i] == ov[i]);
                    lemma_rank_total(ov[p as int], xv);
                    if j - 1 > p {
                        lemma_rank_transitive(xv, ov[p as int], ov[j - 1]);
                    }
                    lemma_rank_transitive(ov[i], xv, ov[j - 1]);
                } else if i == p {
                    assert(nv[j] == ov[j - 1]);
                    lemma_rank_total(ov[p as int], xv);
                    if j - 1 > p {
                        lemma_rank_transitive(xv, ov[p as int], ov[j - 1]);
                    }
                } else {
                    assert(nv[i] == ov[i - 1] && nv[j] == ov[j - 1]);
                }
            }
            assert forall|i: int| 0 <= i < post.len() implies #[trigger] nv.contains(post[i]) by {
                if i == k {
                    assert(nv[p as int] == xv);
                } else {
                    assert(post[i] == pre[i]);
                    assert(ov.contains(pre[i]));
                    let q = choose|q: int| 0 <= q < ov.len() && ov[q] == pre[i];
                    if q < p {
                        assert(nv[q] == ov[q]);
                    } else {
                        assert(nv[q + 1] == ov[q]);
                    }
                }
            }
            assert forall|i: int| 0 <= i < nv.len() implies #[trigger] post.contains(nv[i]) by {
                if i == p {
                    assert(post[k as int] == xv);
                } else {
                    let oi = if i < p {
                        i
                    } else {
                        i - 1
                    };
                    assert(nv[i] == ov[oi]);
                    assert(pre.contains(ov[oi]));
                    let m = choose|m: int| 0 <= m < pre.len() && pre[m] == ov[oi];
                    assert(post[m] == pre[m]);
                }
            }
        }
        k = k + 1;
    }
    assert(mv.take(k as int) =~= mv);
    out
}

// ---------------------------------------------------------------------------
// Full-text query
// ---------------------------------------------------------------------------

/// Index of the first non-whitespace character at or after `i` (the
/// length of `s` when there is none).
pub open spec fn word_start(s: Seq<char>, i: int) -> int
    decreases s.len() - i,
{
    if 0 <= i < s.len() && is_ws(s[i]) {
        word_start(s, i + 1)
    } else {
        i
    }
}

/// Index of the first whitespace character at or after `i` (the length of
/// `s` when there is none).
pub open spec fn word_end(s: Seq<char>, i: int) -> int
    decreases s.len() - i,
{
    if 0 <= i < s.len() && !is_ws(s[i]) {
        word_end(s, i + 1)
    } else {
        i
    }
}

pub proof fn lemma_word_bounds(s: Seq<char>, i: int)
    requires
        0 <= i <= s.len(),
    ensures
        i <= word_start(s, i) <= s.len(),
        i <= word_end(s, i) <= s.len(),
        word_start(s, i) < s.len() ==> !is_ws(s[word_start(s, i)]),
        forall|k: int| i <= k < word_start(s, i) ==> is_ws(#[trigger] s[k]),
        forall|k: int| i <= k < word_end(s, i) ==> !is_ws(#[trigger] s[k]),
    decreases s.len() - i,
{
    if i < s.len() {
        lemma_word_bounds(s, i + 1);
    }
}

/// The words of `s[i..]`: its maximal runs of non-whitespace, in order
/// (what `str::split_whitespace` yields).
pub open spec fn words_from(s: Seq<char>, i: int) -> Seq<Seq<char>>
    decreases s.len() - i,
{
    if 0 <= i <= s.len() {
        let a = word_start(s, i);
        if a >= s.len() {
            Seq::empty()
        } else {
            let b = word_end(s, a);
            proof {
                lemma_word_bounds(s, i);
                lemma_word_bounds(s, a);
                lemma_word_bounds(s, a + 1);
            }
            if b > i {
                seq![s.subrange(a, b)] + words_from(s, b)
            } else {
                Seq::empty()
            }
        }
    } else {
        Seq::empty()
    }
}

/// `w` with each `"` doubled.
pub open spec fn escape_quotes(w: Seq<char>) -> Seq<char>
    decreases w.len(),
{
    if w.len() == 0 {
        Seq::empty()
    } else {
        escape_quotes(w.drop_last()) + if w.last() == '"' {
            seq!['"', '"']
        } else {
            seq![w.last()]
        }
    }
}

/// A word as a quoted prefix term: `"word"*`.
pub open spec fn prefix_term(w: Seq<char>) -> Seq<char> {
    seq!['"'] + escape_quotes(w) + seq!['"', '*']
}

/// The prefix terms of `ws`, separated by single spaces.
pub open spec fn prefix_terms(ws: Seq<Seq<char>>) -> Seq<char>
    decreases ws.len(),
{
    if ws.len() == 0 {
        Seq::empty()
    } else if ws.len() == 1 {
        prefix_term(ws[0])
    } else {
        prefix_terms(ws.drop_last()) + seq![' '] + prefix_term(ws.last())
    }
}

/// The FTS5 match expression for a full-text query: every
/// whitespace-separated word of the query as a quoted prefix term (inner
/// quotes doubled), separated by spaces.
pub fn fts_match_query(query: &str) -> (r: String)
    ensures
        r@ == prefix_terms(words_from(query@, 0)),
{
    let v = chars_of(query);
    let ghost s = v@;
    let mut out: Vec<char> = Vec::new();
    let ghost mut done: Seq<Seq<char>> = Seq::empty();
    let mut any = false;
    let mut i: usize = 0;
    assert(s.subrange(0, 0) =~= Seq::<char>::empty());
    while i < v.len()
        invariant
            s == v@,
            i <= v@.len(),
            words_from(s, 0) == done + words_from(s, i as int),
            out@ == prefix_terms(done),
            any == (done.len() > 0),
        ensures
            i == v@.len(),
            words_from(s, 0) == done + words_from(s, i as int),
            out@ == prefix_terms(done),
        decreases v@.len() - i,
    {
        proof {
            lemma_word_bounds(s, i as int);
        }
        let mut a = i;
        while a < v.len() && crate::text::is_whitespace(v[a])
            invariant
                s == v@,
                i <= a <= v@.len(),
                word_start(s, a as int) == word_start(s, i as int),
            decreases v@.len() - a,
        {
            a = a + 1;
        }
        if a >= v.len() {
            assert(words_from(s, i as int) =~= Seq::<Seq<char>>::empty());
            i = v.len();
            assert(words_from(s, i as int) =~= Seq::<Seq<char>>::empty());
            break;
        }
        proof {
            lemma_word_bounds(s, a as int);
            lemma_word_bounds(s, a + 1);
        }
        let mut b = a;
        let mut term: Vec<char> = Vec::new();
        term.push('"');
        assert(s.subrange(a as int, a as int) =~= Seq::<char>::empty());
        while b < v.len() && !crate::text::is_whitespace(v[b])
            invariant
                s == v@,
                a <= b <= v@.len(),
                word_end(s, b as int) == word_end(s, a as int),
                term@ == seq!['"'] + escape_quotes(s.subrange(a as int, b as int)),
            decreases v@.len() - b,
        {
            let ghost w0 = s.subrange(a as int, b as int);
            assert(s.subrange(a as int, b + 1).drop_last() =~= w0);
            assert(s.subrange(a as int, b + 1).last() == v@[b as int]);
            if v[b] == '"' {
                term.push('"');
                term.push('"');
            } else {
                term.push(v[b]);
            }
            assert(term@ =~= seq!['"'] + escape_quotes(s.subrange(a as int, b + 1)));
            b = b + 1;
        }
        term.push('"');
        term.push('*');
        let ghost w = s.subrange(a as int, b as int);
        assert(term@ =~= prefix_term(w));
        assert(words_from(s, i as int) == seq![w] + words_from(s, b as int));
        let ghost before = done;
        if any {
            out.push(' ');
        }
        append_chars(&mut out, &term);
        any = true;
        proof {
            done = before.push(w);
            assert(done.drop_last() =~= before);
            if before.len() == 0 {
                assert(done =~= seq![w]);
            }
            assert(out@ =~= prefix_terms(done));
            assert(before + (seq![w] + words_from(s, b as int)) =~= done + words_from(s, b as int));
        }
        i = b;
    }
    assert(words_from(s, i as int) =~= Seq::<Seq<char>>::empty());
    assert(done + words_from(s, i as int) =~= done);
    string_from_chars(out.as_slice())
}

/// Prepares a search: the trimmed query and the expanded per-source limit
/// (three times the limit, saturating), or `None` when the query is blank
/// or the limit is zero.
pub fn search_request(query: &str, limit: usize) -> (r: Option<(String, usize)>)
    ensures
        match r {
            Some((q, n)) => q@ == trim(query@) && q@.len() > 0 && limit > 0 && n as int == (
            if limit * 3 > usize::MAX {
                usize::MAX as int
            } else {
                limit * 3
            }),
            None => trim(query@).len() == 0 || limit == 0,
        },
{
    let v = chars_of(query);
    let trimmed = trimmed_string(&v, 0, v.len());
    assert(v@.subrange(0, v@.len() as int) =~= v@);
    if trimmed.as_str().unicode_len() == 0 || limit == 0 {
        return None;
    }
    let expanded = if limit > usize::MAX / 3 {
        usize::MAX
    } else {
        limit * 3
    };
    let expanded = if expanded > limit {
        expanded
    } else {
        limit
    };
    Some((trimmed, expanded))
}

/// Merges filename, full-text and heading matches for the trimmed `query`
/// into at most `limit` ranked results.
pub fn rank_search_results(
    query: &str,
    limit: usize,
    fuzzy: &Vec<FuzzyFileRow>,
    fts: &Vec<FtsHit>,
    headings: &Vec<HeadingSearchRow>,
) -> (r: Vec<RankedResult>)
    requires
        forall|i: int| 0 <= i < fuzzy@.len() ==> (#[trigger] fuzzy@[i]).score <= i64::MAX - 5000,
        forall|i: int| 0 <= i < fts@.len() ==> -1000 <= (#[trigger] fts@[i]).bm25 <= 1000,
    ensures
        search_results(fuzzy@, fts@, headings@, query@, limit as int, result_views(r@)),
{
    let ghost cands = candidates(fuzzy@, fts@, headings@, query@);
    let ghost nf = fuzzy@.len() as int;
    let ghost nt = fts@.len() as int;
    assert forall|i: int| 0 <= i < nf implies cands[i] == fuzzy_candidate(#[trigger] fuzzy@[i]) by {}
    assert forall|i: int| 0 <= i < nt implies cands[nf + i] == fts_candidate(
        i,
        #[trigger] fts@[i],
        query@,
    ) by {}
    assert forall|i: int| 0 <= i < headings@.len() implies cands[nf + nt + i] == heading_candidate(
        #[trigger] headings@[i],
    ) by {}
    let query_lower = chars_of(to_lowercase(query).as_str());
    let mut merged: Vec<RankedResult> = Vec::new();
    assert(result_views(merged@) =~= merge_candidates(cands.take(0)));
    let mut i: usize = 0;
    while i < fuzzy.len()
        invariant
            i <= fuzzy@.len(),
            nf == fuzzy@.len(),
            cands == candidates(fuzzy@, fts@, headings@, query@),
            forall|i: int| 0 <= i < nf ==> cands[i] == fuzzy_candidate(#[trigger] fuzzy@[i]),
            forall|i: int| 0 <= i < fuzzy@.len() ==> (#[trigger] fuzzy@[i]).score <= i64::MAX - 5000,
            result_views(merged@) == merge_candidates(cands.take(i as int)),
        decreases fuzzy@.len() - i,
    {
        let row = &fuzzy[i];
        let c = RankedResult {
            path: row.path.clone(),
            title: title_from_name_or_path(row.name.as_str(), row.path.as_str()),
            snippet: filename_snippet_exec(row.path.as_str()),
            score: 5000 + row.score,
            source: RankSource::Filename(row.score),
        };
        assert(c.view5() == cands[i as int]);
        insert_candidate_exec(&mut merged, c);
        assert(cands.take(i + 1).drop_last() =~= cands.take(i as int));
        i = i + 1;
    }
    let mut j: usize = 0;
    while j < fts.len()
        invariant
            j <= fts@.len(),
            nf == fuzzy@.len(),
            nt == fts@.len(),
            query_lower@ == lowercase(query@),
            cands == candidates(fuzzy@, fts@, headings@, query@),
            forall|i: int| 0 <= i < nt ==> cands[nf + i] == fts_candidate(
                i,
                #[trigger] fts@[i],
                query@,
            ),
            forall|i: int| 0 <= i < fts@.len() ==> -1000 <= (#[trigger] fts@[i]).bm25 <= 1000,
            result_views(merged@) == merge_candidates(cands.take(nf + j)),
        decreases fts@.len() - j,
    {
        let row = &fts[j];
        let title = title_from_name_or_path(row.title.as_str(), row.path.as_str());
        let snippet = normalize_snippet(row.snippet.as_str(), title.as_str(), row.path.as_str());
        let bonus = title_bonus_exec(row.title.as_str(), query, &query_lower);
        let c = RankedResult {
            path: row.path.clone(),
            title,
            snippet,
            score: 3000 + bonus + row.bm25,
            source: RankSource::FullText(j),
        };
        assert(c.view5() == cands[nf + j]);
        insert_candidate_exec(&mut merged, c);
        assert(cands.take(nf + j + 1).drop_last() =~= cands.take(nf + j));
        j = j + 1;
    }
    let mut h: usize = 0;
    while h < headings.len()
        invariant
            h <= headings@.len(),
            nf == fuzzy@.len(),
            nt == fts@.len(),
            cands == candidates(fuzzy@, fts@, headings@, query@),
            forall|i: int| 0 <= i < headings@.len() ==> cands[nf + nt + i] == heading_candidate(
                #[trigger] headings@[i],
            ),
            result_views(merged@) == merge_candidates(cands.take(nf + nt + h)),
        decreases headings@.len() - h,
    {
        let row = &headings[h];
        let c = RankedResult {
            path: row.file_path.clone(),
            title: title_from_name_or_path("", row.file_path.as_str()),
            snippet: heading_snippet_exec(row.level, row.text.as_str()),
            score: 2000 - row.level as i64,
            source: RankSource::Heading(row.level),
        };
        proof {
            reveal_strlit("");
            assert(""@ =~= Seq::<char>::empty());
        }
        assert(c.view5() == cands[nf + nt + h]);
        insert_candidate_exec(&mut merged, c);
        assert(cands.take(nf + nt + h + 1).drop_last() =~= cands.take(nf + nt + h));
        h = h + 1;
    }
    assert(cands.take(nf + nt + h) =~= cands);
    proof {
        lemma_merge_distinct(cands);
    }
    let mut sorted = sort_ranked(&merged);
    let ghost sv = result_views(sorted@);
    sorted.truncate(limit);
    assert(result_views(sorted@) =~= sv.take(if limit < sv.len() {
        limit as int
    } else {
        sv.len() as int
    }));
    sorted
}


// ---------------------------------------------------------------------------
// Laws
// ---------------------------------------------------------------------------

/// Some merged result has the path of `d` and at least its score.
pub open spec fn best_present(merged: Seq<ResultView>, d: ResultView) -> bool {
    exists|m: int| 0 <= m < merged.len() && (#[trigger] merged[m]).0 == d.0 && merged[m].3 >= d.3
}

proof fn lemma_merge_sound(cands: Seq<ResultView>)
    ensures
        forall|i: int|
            0 <= i < merge_candidates(cands).len() ==> cands.contains(
                #[trigger] merge_candidates(cands)[i],
            ),
        forall|j: int| 0 <= j < cands.len() ==> best_present(merge_candidates(cands), #[trigger] cands[j]),
    decreases cands.len(),
{
    if cands.len() > 0 {
        let init = cands.drop_last();
        lemma_merge_sound(init);
        let acc = merge_candidates(init);
        let c = cands.last();
        lemma_path_index(acc, c.0);
        let r = merge_candidates(cands);
        assert(r == insert_candidate(acc, c));
        let k = path_index(acc, c.0);
        assert forall|i: int| 0 <= i < r.len() implies cands.contains(#[trigger] r[i]) by {
            if r[i] == c {
                assert(cands[cands.len() - 1] == c);
            } else {
                let oi = i;
                assert(r[i] == acc[oi]);
                assert(init.contains(acc[oi]));
                let m = choose|m: int| 0 <= m < init.len() && init[m] == acc[oi];
                assert(cands[m] == init[m]);
            }
        }
        assert forall|j: int| 0 <= j < cands.len() implies best_present(r, #[trigger] cands[j]) by {
            if j == cands.len() - 1 {
                if k < 0 {
                    assert(r[acc.len() as int] == c);
                } else if c.3 > acc[k].3 {
                    assert(r[k] == c);
                } else {
                    assert(r[k] == acc[k]);
                }
            } else {
                assert(cands[j] == init[j]);
                assert(best_present(acc, init[j]));
                let m = choose|m: int|
                    0 <= m < acc.len() && (#[trigger] acc[m]).0 == init[j].0 && acc[m].3
                        >= init[j].3;
                if k >= 0 && m == k && c.3 > acc[k].3 {
                    assert(r[m] == c);
                } else {
                    assert(r[m] == acc[m]);
                }
            }
        }
    }
}

/// Search results come in rank order — highest score first, ties broken by
/// path — with no path twice and at most `limit` of them; each is one of
/// the candidates and has the highest score among the candidates for its
/// path.
pub proof fn search_results_are_ranked(
    fuzzy: Seq<FuzzyFileRow>,
    fts: Seq<FtsHit>,
    headings: Seq<HeadingSearchRow>,
    query: Seq<char>,
    limit: int,
    out: Seq<ResultView>,
)
    requires
        0 <= limit,
        search_results(fuzzy, fts, headings, query, limit, out),
    ensures
        out.len() <= limit,
        forall|i: int, j: int| 0 <= i < j < out.len() ==> ranks_before(out[i], out[j]),
        forall|i: int, j: int| 0 <= i < j < out.len() ==> out[i].0 != out[j].0,
        forall|i: int|
            0 <= i < out.len() ==> candidates(fuzzy, fts, headings, query).contains(
                #[trigger] out[i],
            ),
        forall|i: int, j: int|
            0 <= i < out.len() && 0 <= j < candidates(fuzzy, fts, headings, query).len() && (
            #[trigger] candidates(fuzzy, fts, headings, query)[j]).0 == (#[trigger] out[i]).0
                ==> out[i].3 >= candidates(fuzzy, fts, headings, query)[j].3,
{
    let cands = candidates(fuzzy, fts, headings, query);
    let merged = merge_candidates(cands);
    let sorted = choose|sorted: Seq<ResultView>|
        rank_sorted(merged, sorted) && out == sorted.take(
            if limit < sorted.len() {
                limit
            } else {
                sorted.len() as int
            },
        );
    lemma_merge_distinct(cands);
    lemma_merge_sound(cands);
    assert forall|i: int| 0 <= i < out.len() implies merged.contains(#[trigger] out[i]) by {
        assert(out[i] == sorted[i]);
    }
    assert forall|i: int, j: int| 0 <= i < j < out.len() implies out[i].0 != out[j].0 by {
        assert(out[i] == sorted[i] && out[j] == sorted[j]);
        assert(ranks_before(sorted[i], sorted[j]));
        assert(merged.contains(out[i]));
        assert(merged.contains(out[j]));
        let a = choose|a: int| 0 <= a < merged.len() && merged[a] == out[i];
        let b = choose|b: int| 0 <= b < merged.len() && merged[b] == out[j];
        if out[i].0 == out[j].0 {
            if a != b {
                if a < b {
                    assert(merged[a].0 != merged[b].0);
                } else {
                    assert(merged[b].0 != merged[a].0);
                }
            }
            lemma_lex_irreflexive(out[i].0);
        }
    }
    assert forall|i: int| 0 <= i < out.len() implies cands.contains(#[trigger] out[i]) by {
        assert(merged.contains(out[i]));
        let a = choose|a: int| 0 <= a < merged.len() && merged[a] == out[i];
        assert(cands.contains(merged[a]));
    }
    assert forall|i: int, j: int|
        0 <= i < out.len() && 0 <= j < cands.len() && (#[trigger] cands[j]).0 == (
        #[trigger] out[i]).0 implies out[i].3 >= cands[j].3 by {
        assert(best_present(merged, cands[j]));
        let m = choose|m: int|
            0 <= m < merged.len() && (#[trigger] merged[m]).0 == cands[j].0 && merged[m].3
                >= cands[j].3;
        assert(merged.contains(out[i]));
        let a = choose|a: int| 0 <= a < merged.len() && merged[a] == out[i];
        if a != m {
            if a < m {
                assert(merged[a].0 != merged[m].0);
            } else {
                assert(merged[m].0 != merged[a].0);
            }
        }
    }
}
} // verus!
