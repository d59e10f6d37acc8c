//! Graph view rules: node filters, the node cap, and the ordering of nodes
//! and edges.

use vstd::prelude::*;
use crate::order::{chars_equal, lex_less, lex_lt};
use crate::paths::starts_with;
use crate::resolve::NoteId;
use crate::text::chars_of;

verus! {

/// Default BFS depth from the center note.
pub const DEFAULT_DEPTH: u8 = 1;

/// Upper bound on depth.
pub const MAX_DEPTH: u8 = 3;

/// Hard cap on returned nodes.
pub const NODE_CAP: usize = 50;

/// Filters applied to graph nodes.
#[derive(Debug, Clone, Default)]
pub struct GraphFilters {
    /// OR-semantic tag filter — a node matches if any of its tags is in
    /// this list. `None` or an empty list means no tag filtering.
    pub tags: Option<Vec<String>>,
    /// Folder path prefix (vault-relative). `None` means no folder filter.
    pub folder: Option<String>,
    /// Unix seconds; nodes with `mtime_secs < modified_after` are excluded.
    pub modified_after: Option<i64>,
}

/// A note in the graph.
#[derive(Debug, Clone)]
pub struct GraphNode {
    pub id: NoteId,
    pub path: String,
    pub title: String,
    pub tags: Vec<String>,
    /// Unix seconds since epoch.
    pub modified: i64,
    /// Total links touching this note (outgoing + resolved incoming).
    pub link_count: u32,
    /// True when the note has at least one stored chunk embedding.
    pub has_embedding: bool,
}

/// The depth actually used: clamped to `1..=MAX_DEPTH`.
pub fn clamp_depth(depth: u8) -> (r: u8)
    ensures
        r == (if depth < 1 {
            1
        } else if depth > MAX_DEPTH {
            MAX_DEPTH
        } else {
            depth
        }),
{
    if depth < 1 {
        1
    } else if depth > MAX_DEPTH {
        MAX_DEPTH
    } else {
        depth
    }
}

/// Whether the tag filter is active (a non-empty list), so that a node's
/// tags must be looked up.
pub open spec fn tag_filter_active(tags: Option<Seq<Seq<char>>>) -> bool {
    tags matches Some(t) && t.len() > 0
}

pub open spec fn filter_tags(f: GraphFilters) -> Option<Seq<Seq<char>>> {
    match f.tags {
        Some(t) => Some(t@.map_values(|s: String| s@)),
        None => None,
    }
}

pub fn needs_tags(filters: &GraphFilters) -> (r: bool)
    ensures
        r == tag_filter_active(filter_tags(*filters)),
{
    match &filters.tags {
        Some(t) => t.len() > 0,
        None => false,
    }
}

/// A node passes the filters when its path starts with the folder (if a
/// non-empty folder is given), it was modified at or after
/// `modified_after` (if given), and one of its tags is wanted (if the tag
/// filter is active).
pub open spec fn passes(
    path: Seq<char>,
    mtime: i64,
    node_tags: Seq<Seq<char>>,
    f: GraphFilters,
) -> bool {
    &&& folder_and_time_ok(path, mtime, f)
    &&& (tag_filter_active(filter_tags(f)) ==> exists|i: int, j: int|
        0 <= i < filter_tags(f)->0.len() && 0 <= j < node_tags.len() && filter_tags(f)->0[i]
            == node_tags[j])
}

/// The folder and modification-time parts of the filters.
pub open spec fn folder_and_time_ok(path: Seq<char>, mtime: i64, f: GraphFilters) -> bool {
    &&& match f.folder {
        Some(folder) => folder@.len() > 0 ==> starts_with(path, folder@),
        None => true,
    }
    &&& match f.modified_after {
        Some(after) => mtime >= after,
        None => true,
    }
}

fn has_prefix(path: &Vec<char>, prefix: &Vec<char>) -> (r: bool)
    ensures
        r == starts_with(path@, prefix@),
{
    if prefix.len() > path.len() {
        return false;
    }
    let head = crate::text::slice_chars(path, 0, prefix.len());
    chars_equal(&head, prefix)
}

/// Decides whether a node passes the filters; `node_tags` are the node's
/// tags (only read when the tag filter is active).
pub fn node_passes_filter(
    path: &str,
    mtime: i64,
    node_tags: &Vec<String>,
    filters: &GraphFilters,
) -> (r: bool)
    ensures
        r == passes(path@, mtime, node_tags@.map_values(|s: String| s@), *filters),
{
    let ghost nt = node_tags@.map_values(|s: String| s@);
    if let Some(folder) = &filters.folder {
        let f = chars_of(folder.as_str());
        if f.len() > 0 && !has_prefix(&chars_of(path), &f) {
            return false;
        }
    }
    if let Some(after) = filters.modified_after {
        if mtime < after {
            return false;
        }
    }
    if let Some(wanted) = &filters.tags {
        if wanted.len() > 0 {
            let ghost wv = wanted@.map_values(|s: String| s@);
            assert(folder_and_time_ok(path@, mtime, *filters));
            assert(filter_tags(*filters) == Some(wv));
            let mut i: usize = 0;
            while i < wanted.len()
                invariant
                    i <= wanted@.len(),
                    wv == wanted@.map_values(|s: String| s@),
                    nt == node_tags@.map_values(|s: String| s@),
                    forall|a: int, b: int| 0 <= a < i && 0 <= b < nt.len() ==> wv[a] != nt[b],
                    folder_and_time_ok(path@, mtime, *filters),
                    filter_tags(*filters) == Some(wv),
                    wv.len() > 0,
                decreases wanted@.len() - i,
            {
                let w = chars_of(wanted[i].as_str());
                let mut j: usize = 0;
                while j < node_tags.len()
                    invariant
                        j <= node_tags@.len(),
                        i < wanted@.len(),
                        w@ == wv[i as int],
                        wv == wanted@.map_values(|s: String| s@),
                        nt == node_tags@.map_values(|s: String| s@),
                        forall|b: int| 0 <= b < j ==> wv[i as int] != nt[b],
                        folder_and_time_ok(path@, mtime, *filters),
                        filter_tags(*filters) == Some(wv),
                        wv.len() > 0,
                    decreases node_tags@.len() - j,
                {
                    assert(nt[j as int] == node_tags@[j as int]@);
                    if chars_equal(&w, &chars_of(node_tags[j].as_str())) {
                        assert(wv[i as int] == nt[j as int]);
                        assert(filter_tags(*filters)->0[i as int] == nt[j as int]);
                        return true;
                    }
                    j = j + 1;
                }
                i = i + 1;
            }
            return false;
        }
    }
    true
}

// ---------------------------------------------------------------------------
// Node cap
// ---------------------------------------------------------------------------

/// Inserts `x` after every entry with a count no larger (stable, fewest
/// links first).
pub open spec fn insert_by_count(s: Seq<(Seq<char>, u32)>, x: (Seq<char>, u32)) -> Seq<
    (Seq<char>, u32),
>
    decreases s.len(),
{
    if s.len() == 0 {
        seq![x]
    } else if s.last().1 <= x.1 {
        s.push(x)
    } else {
        insert_by_count(s.drop_last(), x).push(s.last())
    }
}

pub open spec fn sort_by_count(s: Seq<(Seq<char>, u32)>) -> Seq<(Seq<char>, u32)>
    decreases s.len(),
{
    if s.len() == 0 {
        Seq::empty()
    } else {
        insert_by_count(sort_by_count(s.drop_last()), s.last())
    }
}

proof fn lemma_insert_by_count(s: Seq<(Seq<char>, u32)>, x: (Seq<char>, u32), p: int)
    requires
        0 <= p <= s.len(),
        forall|k: int| p <= k < s.len() ==> (#[trigger] s[k]).1 > x.1,
        p > 0 ==> s[p - 1].1 <= x.1,
    ensures
        insert_by_count(s, x) == s.insert(p, x),
    decreases s.len(),
{
    if s.len() == 0 {
        assert(s.insert(p, x) =~= seq![x]);
    } else if p == s.len() {
        assert(s.insert(p, x) =~= s.push(x));
    } else {
        let init = s.drop_last();
        assert forall|k: int| p <= k < init.len() implies (#[trigger] init[k]).1 > x.1 by {
            assert(init[k] == s[k]);
        }
        if p > 0 {
            assert(init[p - 1] == s[p - 1]);
        }
        lemma_insert_by_count(init, x, p);
        assert(init.insert(p, x).push(s.last()) =~= s.insert(p, x));
    }
}

/// The nodes dropped when the graph has more than [`NODE_CAP`] nodes:
/// the `overflow` non-center nodes with the fewest links (earlier ones
/// first among equal counts).
pub fn nodes_to_prune(candidates: &Vec<(String, u32)>, overflow: usize) -> (r: Vec<String>)
    ensures
        r@.map_values(|s: String| s@) == {
            let sorted = sort_by_count(candidates@.map_values(|p: (String, u32)| (p.0@, p.1)));
            let n = if overflow < sorted.len() {
                overflow as int
            } else {
                sorted.len() as int
            };
            sorted.take(n).map_values(|p: (Seq<char>, u32)| p.0)
        },
{
    let ghost cv = candidates@.map_values(|p: (String, u32)| (p.0@, p.1));
    let mut sorted: Vec<(String, u32)> = Vec::new();
    let mut k: usize = 0;
    assert(cv.take(0) =~= Seq::<(Seq<char>, u32)>::empty());
    assert(sorted@.map_values(|p: (String, u32)| (p.0@, p.1)) =~= Seq::<(Seq<char>, u32)>::empty());
    while k < candidates.len()
        invariant
            k <= candidates@.len(),
            cv == candidates@.map_values(|p: (String, u32)| (p.0@, p.1)),
            sorted@.map_values(|p: (String, u32)| (p.0@, p.1)) == sort_by_count(cv.take(k as int)),
        decreases candidates@.len() - k,
    {
        let x = &candidates[k];
        let ghost sv = sorted@.map_values(|p: (String, u32)| (p.0@, p.1));
        let ghost xv = (x.0@, x.1);
        let mut p = sorted.len();
        while p > 0 && sorted[p - 1].1 > x.1
            invariant
                p <= sorted@.len(),
                sv == sorted@.map_values(|p: (String, u32)| (p.0@, p.1)),
                xv == (x.0@, x.1),
                forall|q: int| p <= q < sv.len() ==> (#[trigger] sv[q]).1 > xv.1,
            decreases p,
        {
            assert(sv[p - 1] == (sorted@[p - 1].0@, sorted@[p - 1].1));
            p = p - 1;
        }
        proof {
            if p > 0 {
                assert(sv[p - 1] == (sorted@[p - 1].0@, sorted@[p - 1].1));
            }
            lemma_insert_by_count(sv, xv, p as int);
            assert(cv.take(k + 1).drop_last() =~= cv.take(k as int));
            assert(cv.take(k + 1).last() == xv);
        }
        sorted.insert(p, (x.0.clone(), x.1));
        assert(sorted@.map_values(|p: (String, u32)| (p.0@, p.1)) =~= sv.insert(p as int, xv));
        k = k + 1;
    }
    assert(cv.take(k as int) =~= cv);
    let ghost sorted_v = sorted@.map_values(|p: (String, u32)| (p.0@, p.1));
    let n = if overflow < sorted.len() {
        overflow
    } else {
        sorted.len()
    };
    let mut out: Vec<String> = Vec::new();
    let mut i: usize = 0;
    while i < n
        invariant
            i <= n <= sorted@.len(),
            sorted_v == sorted@.map_values(|p: (String, u32)| (p.0@, p.1)),
            out@.map_values(|s: String| s@) == sorted_v.take(i as int).map_values(
                |p: (Seq<char>, u32)| p.0,
            ),
        decreases n - i,
    {
        let ghost before = out@.map_values(|s: String| s@);
        out.push(sorted[i].0.clone());
        assert(out@.map_values(|s: String| s@) =~= before.push(sorted_v[i as int].0));
        assert(sorted_v.take(i + 1).map_values(|p: (Seq<char>, u32)| p.0) =~= sorted_v.take(
            i as int,
        ).map_values(|p: (Seq<char>, u32)| p.0).push(sorted_v[i as int].0));
        i = i + 1;
    }
    out
}

// ---------------------------------------------------------------------------
// Node tags
// ---------------------------------------------------------------------------

/// `s` with each run of equal neighbours cut to one element.
pub open spec fn dedup_runs(s: Seq<Seq<char>>) -> Seq<Seq<char>>
    decreases s.len(),
{
    if s.len() == 0 {
        Seq::empty()
    } else {
        let d = dedup_runs(s.drop_last());
        if d.len() > 0 && d.last() == s.last() {
            d
        } else {
            d.push(s.last())
        }
    }
}

proof fn lemma_dedup_runs_last(s: Seq<Seq<char>>)
    ensures
        s.len() > 0 ==> dedup_runs(s).len() > 0 && dedup_runs(s).last() == s.last(),
    decreases s.len(),
{
}

/// A node's tags as shown in the graph: sorted, each once.
pub fn node_tags(tags: Vec<String>) -> (r: Vec<String>)
    ensures
        r@.map_values(|s: String| s@) == dedup_runs(
            crate::commands::sort_paths(tags@.map_values(|s: String| s@)),
        ),
{
    let sorted = crate::commands::sorted_paths(tags);
    let ghost sv = sorted@.map_values(|s: String| s@);
    let mut out: Vec<String> = Vec::new();
    let mut i: usize = 0;
    assert(sv.take(0) =~= Seq::<Seq<char>>::empty());
    assert(out@.map_values(|s: String| s@) =~= Seq::<Seq<char>>::empty());
    while i < sorted.len()
        invariant
            i <= sorted@.len(),
            sv == sorted@.map_values(|s: String| s@),
            out@.map_values(|s: String| s@) == dedup_runs(sv.take(i as int)),
        decreases sorted@.len() - i,
    {
        let ghost ov = out@.map_values(|s: String| s@);
        assert(sv.take(i + 1).drop_last() =~= sv.take(i as int));
        assert(sv.take(i + 1).last() == sv[i as int]);
        proof {
            lemma_dedup_runs_last(sv.take(i as int));
        }
        let x = chars_of(sorted[i].as_str());
        let repeat = i > 0 && chars_equal(&x, &chars_of(sorted[i - 1].as_str()));
        if repeat {
            assert(sv.take(i as int).last() == sv[i - 1]);
        } else {
            if out.len() > 0 {
                assert(ov.last() == sv.take(i as int).last());
                assert(sv.take(i as int).last() == sv[i - 1]);
            }
            out.push(sorted[i].clone());
            assert(out@.map_values(|s: String| s@) =~= ov.push(sv[i as int]));
        }
        i = i + 1;
    }
    assert(sv.take(i as int) =~= sv);
    out
}

/// Inserts node `x` after every node whose path does not sort after its
/// path.
pub open spec fn insert_by_path(s: Seq<GraphNode>, x: GraphNode) -> Seq<GraphNode>
    decreases s.len(),
{
    if s.len() == 0 {
        seq![x]
    } else if !lex_lt(x.path@, s.last().path@) {
        s.push(x)
    } else {
        insert_by_path(s.drop_last(), x).push(s.last())
    }
}

/// Nodes sorted by path, stably: nodes with equal paths keep their order.
pub open spec fn sort_by_path(s: Seq<GraphNode>) -> Seq<GraphNode>
    decreases s.len(),
{
    if s.len() == 0 {
        Seq::empty()
    } else {
        insert_by_path(sort_by_path(s.drop_last()), s.last())
    }
}

proof fn lemma_insert_by_path(s: Seq<GraphNode>, x: GraphNode, p: int)
    requires
        0 <= p <= s.len(),
        forall|k: int| p <= k < s.len() ==> lex_lt(x.path@, (#[trigger] s[k]).path@),
        p > 0 ==> !lex_lt(x.path@, s[p - 1].path@),
    ensures
        insert_by_path(s, x) == s.insert(p, x),
    decreases s.len(),
{
    if s.len() == 0 {
        assert(s.insert(p, x) =~= seq![x]);
    } else if p == s.len() {
        assert(s.insert(p, x) =~= s.push(x));
    } else {
        let init = s.drop_last();
        assert forall|k: int| p <= k < init.len() implies lex_lt(
            x.path@,
            (#[trigger] init[k]).path@,
        ) by {
            assert(init[k] == s[k]);
        }
        if p > 0 {
            assert(init[p - 1] == s[p - 1]);
        }
        lemma_insert_by_path(init, x, p);
        assert(init.insert(p, x).push(s.last()) =~= s.insert(p, x));
    }
}

/// The graph's nodes in path order (nodes with equal paths keep their
/// order).
pub fn nodes_by_path(nodes: Vec<GraphNode>) -> (r: Vec<GraphNode>)
    ensures
        r@ == sort_by_path(nodes@),
{
    let ghost s = nodes@;
    let n = nodes.len();
    let mut rest = nodes;
    let mut stack: Vec<GraphNode> = Vec::new();
    while rest.len() > 0
        invariant
            rest@.len() + stack@.len() == s.len(),
            rest@ == s.take(rest@.len() as int),
            forall|k: int| 0 <= k < stack@.len() ==> stack@[k] == s[s.len() - 1 - k],
        decreases rest@.len(),
    {
        let x = rest.pop().unwrap();
        assert(rest@ =~= s.take(rest@.len() as int));
        assert(x == s[rest@.len() as int]);
        stack.push(x);
    }
    let mut out: Vec<GraphNode> = Vec::new();
    let mut k: usize = 0;
    assert(s.take(0) =~= Seq::<GraphNode>::empty());
    while stack.len() > 0
        invariant
            stack@.len() + k == n,
            n == s.len(),
            forall|m: int| 0 <= m < stack@.len() ==> stack@[m] == s[s.len() - 1 - m],
            out@ == sort_by_path(s.take(k as int)),
        decreases stack@.len(),
    {
        let x = stack.pop().unwrap();
        assert(x == s[k as int]);
        let xp = chars_of(x.path.as_str());
        let ghost ov = out@;
        let mut p = out.len();
        while p > 0 && lex_less(&xp, &chars_of(out[p - 1].path.as_str()))
            invariant
                p <= out@.len(),
                ov == out@,
                xp@ == x.path@,
                forall|q: int| p <= q < ov.len() ==> lex_lt(x.path@, (#[trigger] ov[q]).path@),
            decreases p,
        {
            p = p - 1;
        }
        proof {
            lemma_insert_by_path(ov, x, p as int);
            assert(s.take(k + 1).drop_last() =~= s.take(k as int));
            assert(s.take(k + 1).last() == x);
        }
        out.insert(p, x);
        k = k + 1;
    }
    assert(s.take(k as int) =~= s);
    out
}

} // verus!
