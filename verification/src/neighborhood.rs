//! The breadth-first walk that collects a note's link neighborhood, and the
//! order in which graph edges are returned.
//!
//! The walk is a state machine: the caller asks which note to expand next,
//! looks up that note's outgoing and incoming links, and hands each
//! neighbor back together with the filter verdict for it. The walk decides
//! which notes are admitted, which are excluded, what is queued and which
//! edges are kept.

use vstd::prelude::*;
use crate::graph::MAX_DEPTH;
use crate::order::{chars_equal, lex_less, lex_lt};
use crate::text::chars_of;

verus! {

/// The characters of each string.
pub open spec fn ids(s: Seq<String>) -> Seq<Seq<char>> {
    s.map_values(|x: String| x@)
}

/// Queue entries as (note, depth) pairs.
pub open spec fn queued(s: Seq<(String, u8)>) -> Seq<(Seq<char>, u8)> {
    s.map_values(|e: (String, u8)| (e.0@, e.1))
}

/// Edges as (source, target) pairs.
pub open spec fn pairs(s: Seq<(String, String)>) -> Seq<(Seq<char>, Seq<char>)> {
    s.map_values(|e: (String, String)| (e.0@, e.1@))
}

/// `s` with `x` appended, unless `x` is already in it.
pub open spec fn add_once<A>(s: Seq<A>, x: A) -> Seq<A> {
    if s.contains(x) {
        s
    } else {
        s.push(x)
    }
}

/// The depth actually walked: `depth` clamped to `1..=MAX_DEPTH`.
pub open spec fn walk_depth(depth: u8) -> u8 {
    if depth < 1 {
        1
    } else if depth > MAX_DEPTH {
        MAX_DEPTH
    } else {
        depth
    }
}

/// Any requested depth is walked as its clamp to `1..=MAX_DEPTH`: a depth
/// above the maximum walks the maximum, depth 0 walks one hop, and
/// clamping twice changes nothing, so two walks from the same centre whose
/// depths clamp alike start out alike.
pub proof fn walk_depth_is_clamped(depth: u8)
    ensures
        1 <= walk_depth(depth) <= MAX_DEPTH,
        depth > MAX_DEPTH ==> walk_depth(depth) == MAX_DEPTH,
        depth == 0 ==> walk_depth(depth) == 1,
        1 <= depth <= MAX_DEPTH ==> walk_depth(depth) == depth,
        walk_depth(walk_depth(depth)) == walk_depth(depth),
{
}

/// What a walk shows of itself: its depth limit, center, admitted and
/// rejected notes, pending queue entries, the note being expanded and the
/// edges kept.
#[verifier::ext_equal]
pub struct WalkView {
    pub depth: u8,
    pub center: Seq<char>,
    pub admitted: Seq<Seq<char>>,
    pub rejected: Seq<Seq<char>>,
    pub pending: Seq<(Seq<char>, u8)>,
    pub expanding: Option<(Seq<char>, u8)>,
    pub edges: Seq<(Seq<char>, Seq<char>)>,
}

/// The view of a walk.
pub open spec fn walk_view(w: NeighborhoodWalk) -> WalkView {
    WalkView {
        depth: w.max_depth(),
        center: w.center(),
        admitted: w.admitted(),
        rejected: w.rejected(),
        pending: w.pending(),
        expanding: w.expanding(),
        edges: w.edge_list(),
    }
}

/// A walk just started at `center` with the requested `depth`.
pub open spec fn start_view(center: Seq<char>, depth: u8) -> WalkView {
    WalkView {
        depth: walk_depth(depth),
        center,
        admitted: seq![center],
        rejected: Seq::empty(),
        pending: seq![(center, 0u8)],
        expanding: None,
        edges: Seq::empty(),
    }
}

/// The walk after taking the next note to expand: the first pending entry
/// shallower than the depth limit, entries at the limit dropped.
pub open spec fn next_view(v: WalkView) -> WalkView {
    let k = first_open(v.pending, v.depth);
    if k < v.pending.len() {
        WalkView { expanding: Some(v.pending[k]), pending: v.pending.skip(k + 1), ..v }
    } else {
        WalkView { expanding: None, pending: Seq::empty(), ..v }
    }
}

/// The walk after considering neighbor `o` of the note being expanded.
pub open spec fn considered_view(v: WalkView, o: Seq<char>, passes: bool, outgoing: bool) -> WalkView {
    match v.expanding {
        None => v,
        Some(cur) => if o == cur.0 {
            v
        } else {
            let known = v.admitted.contains(o);
            let barred = v.rejected.contains(o);
            let fresh = !known && !barred;
            let kept = known || (!barred && passes);
            let edge = if outgoing {
                (cur.0, o)
            } else {
                (o, cur.0)
            };
            WalkView {
                admitted: if fresh && passes {
                    v.admitted.push(o)
                } else {
                    v.admitted
                },
                rejected: if fresh && !passes {
                    v.rejected.push(o)
                } else {
                    v.rejected
                },
                pending: if fresh && passes {
                    v.pending.push((o, (cur.1 + 1) as u8))
                } else {
                    v.pending
                },
                edges: if kept {
                    add_once(v.edges, edge)
                } else {
                    v.edges
                },
                ..v
            }
        },
    }
}

proof fn lemma_considered_view(
    w: NeighborhoodWalk,
    w2: NeighborhoodWalk,
    o: Seq<char>,
    passes: bool,
    outgoing: bool,
    r: bool,
)
    requires
        after_considering(w, w2, o, passes, outgoing, r),
    ensures
        walk_view(w2) == considered_view(walk_view(w), o, passes, outgoing),
{
    assert(walk_view(w2) =~= considered_view(walk_view(w), o, passes, outgoing));
}

/// One step of the program that drives a walk: take the next note, or
/// consider a neighbor of the note being expanded with its filter verdict
/// and the link's direction.
pub enum WalkEvent {
    Next,
    Consider(Seq<char>, bool, bool),
}

pub open spec fn walk_step(v: WalkView, e: WalkEvent) -> WalkView {
    match e {
        WalkEvent::Next => next_view(v),
        WalkEvent::Consider(o, passes, outgoing) => considered_view(v, o, passes, outgoing),
    }
}

/// The walk after the events `evs`, in order.
pub open spec fn run_walk(v: WalkView, evs: Seq<WalkEvent>) -> WalkView
    decreases evs.len(),
{
    if evs.len() == 0 {
        v
    } else {
        walk_step(run_walk(v, evs.drop_last()), evs.last())
    }
}

/// A neighborhood walk started at depth `depth` runs exactly as one
/// started at the clamped depth `walk_depth(depth)`: after any sequence of
/// steps the two walks show the same state, so they take the same notes,
/// give the same answers and keep the same notes and edges. Depth 99 walks
/// as depth 3, depth 0 as depth 1.
pub proof fn clamped_depth_walks_alike(center: Seq<char>, depth: u8, evs: Seq<WalkEvent>)
    ensures
        run_walk(start_view(center, depth), evs) == run_walk(
            start_view(center, walk_depth(depth)),
            evs,
        ),
{
    assert(start_view(center, depth) =~= start_view(center, walk_depth(depth)));
}

/// Index of the first queue entry shallower than `depth` (the length of
/// `p` when there is none).
pub open spec fn first_open(p: Seq<(Seq<char>, u8)>, depth: u8) -> int
    decreases p.len(),
{
    if p.len() == 0 {
        0
    } else if p[0].1 < depth {
        0
    } else {
        1 + first_open(p.drop_first(), depth)
    }
}

proof fn lemma_first_open(p: Seq<(Seq<char>, u8)>, depth: u8)
    ensures
        0 <= first_open(p, depth) <= p.len(),
        first_open(p, depth) < p.len() ==> p[first_open(p, depth)].1 < depth,
    decreases p.len(),
{
    if p.len() > 0 && p[0].1 >= depth {
        lemma_first_open(p.drop_first(), depth);
    }
}

/// The state of a neighborhood walk.
pub struct NeighborhoodWalk {
    depth: u8,
    visited: Vec<String>,
    excluded: Vec<String>,
    queue: Vec<(String, u8)>,
    head: usize,
    current: Option<(String, u8)>,
    edges: Vec<(String, String)>,
}

/// What considering neighbor `o` of the note being expanded does to the
/// walk `w`, giving `w2` and the answer `r` (whether the edge is kept).
/// `outgoing` tells whether the link goes from the expanded note to `o`
/// or from `o` to it; `passes` is `o`'s filter verdict, read only when
/// `o` has been neither admitted nor excluded before.
pub open spec fn after_considering(
    w: NeighborhoodWalk,
    w2: NeighborhoodWalk,
    o: Seq<char>,
    passes: bool,
    outgoing: bool,
    r: bool,
) -> bool {
    match w.expanding() {
        None => !r && w2 == w,
        Some(cur) => if o == cur.0 {
            !r && w2 == w
        } else {
            let known = w.admitted().contains(o);
            let barred = w.rejected().contains(o);
            let fresh = !known && !barred;
            let edge = if outgoing {
                (cur.0, o)
            } else {
                (o, cur.0)
            };
            &&& r == (known || (!barred && passes))
            &&& w2.admitted() == (if fresh && passes {
                w.admitted().push(o)
            } else {
                w.admitted()
            })
            &&& w2.rejected() == (if fresh && !passes {
                w.rejected().push(o)
            } else {
                w.rejected()
            })
            &&& w2.pending() == (if fresh && passes {
                w.pending().push((o, (cur.1 + 1) as u8))
            } else {
                w.pending()
            })
            &&& w2.edge_list() == (if r {
                add_once(w.edge_list(), edge)
            } else {
                w.edge_list()
            })
            &&& w2.expanding() == w.expanding()
            &&& w2.max_depth() == w.max_depth()
            &&& w2.center() == w.center()
        },
    }
}

pub(crate) fn contains_id(v: &Vec<String>, x: &Vec<char>) -> (r: bool)
    ensures
        r == ids(v@).contains(x@),
{
    let mut i: usize = 0;
    while i < v.len()
        invariant
            i <= v@.len(),
            forall|k: int| 0 <= k < i ==> ids(v@)[k] != x@,
        decreases v@.len() - i,
    {
        if chars_equal(&chars_of(v[i].as_str()), x) {
            assert(ids(v@)[i as int] == x@);
            return true;
        }
        i = i + 1;
    }
    false
}

fn contains_pair(v: &Vec<(String, String)>, a: &Vec<char>, b: &Vec<char>) -> (r: bool)
    ensures
        r == pairs(v@).contains((a@, b@)),
{
    let mut i: usize = 0;
    while i < v.len()
        invariant
            i <= v@.len(),
            forall|k: int| 0 <= k < i ==> pairs(v@)[k] != (a@, b@),
        decreases v@.len() - i,
    {
        if chars_equal(&chars_of(v[i].0.as_str()), a) && chars_equal(
            &chars_of(v[i].1.as_str()),
            b,
        ) {
            assert(pairs(v@)[i as int] == (a@, b@));
            return true;
        }
        i = i + 1;
    }
    false
}

/// The `i`-th admitted note is joined by a kept edge, either way, to an
/// earlier admitted note one hop closer to the center.
pub open spec fn reached_from_earlier(
    v: Seq<Seq<char>>,
    hops: Seq<u8>,
    e: Seq<(Seq<char>, Seq<char>)>,
    i: int,
) -> bool {
    exists|j: int|
        0 <= j < i && hops[j] + 1 == hops[i] && (e.contains((v[j], v[i])) || e.contains((v[i], v[j])))
}

impl NeighborhoodWalk {
    /// The depth limit of the walk.
    pub closed spec fn max_depth(&self) -> u8 {
        self.depth
    }

    /// The notes admitted so far, the center first.
    pub closed spec fn admitted(&self) -> Seq<Seq<char>> {
        ids(self.visited@)
    }

    /// The notes excluded by the filters so far.
    pub closed spec fn rejected(&self) -> Seq<Seq<char>> {
        ids(self.excluded@)
    }

    /// The queued (note, depth) entries not yet taken.
    pub closed spec fn pending(&self) -> Seq<(Seq<char>, u8)> {
        queued(self.queue@).skip(self.head as int)
    }

    /// The note being expanded, with its depth.
    pub closed spec fn expanding(&self) -> Option<(Seq<char>, u8)> {
        match self.current {
            Some(c) => Some((c.0@, c.1)),
            None => None,
        }
    }

    /// The edges kept so far, in the order they were found.
    pub closed spec fn edge_list(&self) -> Seq<(Seq<char>, Seq<char>)> {
        pairs(self.edges@)
    }

    /// The note the walk started from.
    pub closed spec fn center(&self) -> Seq<char> {
        ids(self.visited@)[0]
    }

    /// How many hops from the center each admitted note was reached at, in
    /// the order of [`NeighborhoodWalk::admitted`].
    pub closed spec fn hop_counts(&self) -> Seq<u8> {
        self.queue@.map_values(|e: (String, u8)| e.1)
    }

    /// The walk's invariant.
    pub closed spec fn wf(&self) -> bool {
        let v = ids(self.visited@);
        let x = ids(self.excluded@);
        let q = queued(self.queue@);
        let e = pairs(self.edges@);
        let hops = self.hop_counts();
        &&& 1 <= self.depth <= MAX_DEPTH
        &&& self.head <= self.queue@.len()
        &&& v.len() > 0
        &&& v.no_duplicates()
        &&& x.no_duplicates()
        &&& forall|i: int| 0 <= i < x.len() ==> !v.contains(#[trigger] x[i])
        &&& q.len() == v.len()
        &&& forall|i: int| 0 <= i < q.len() ==> (#[trigger] q[i]).0 == v[i] && q[i].1 <= self.depth
        &&& hops[0] == 0
        &&& match self.current {
            Some(c) => c.1 < self.depth && exists|j: int|
                0 <= j < self.head && #[trigger] q[j] == (c.0@, c.1),
            None => true,
        }
        &&& e.no_duplicates()
        &&& forall|i: int|
            0 <= i < e.len() ==> v.contains((#[trigger] e[i]).0) && v.contains(e[i].1) && e[i].0
                != e[i].1
        &&& forall|i: int| 1 <= i < v.len() ==> #[trigger] reached_from_earlier(v, hops, e, i)
    }

    /// Starts a walk at `center`, `depth` hops deep (clamped to
    /// `1..=MAX_DEPTH`).
    pub fn new(center: &str, depth: u8) -> (w: Self)
        ensures
            w.wf(),
            w.max_depth() == walk_depth(depth),
            w.center() == center@,
            w.admitted() == seq![center@],
            w.rejected() == Seq::<Seq<char>>::empty(),
            w.pending() == seq![(center@, 0u8)],
            w.expanding() is None,
            w.edge_list() == Seq::<(Seq<char>, Seq<char>)>::empty(),
            walk_view(w) == start_view(center@, depth),
    {
        let depth = crate::graph::clamp_depth(depth);
        let mut visited: Vec<String> = Vec::new();
        visited.push(center.to_owned());
        let mut queue: Vec<(String, u8)> = Vec::new();
        queue.push((center.to_owned(), 0));
        let w = NeighborhoodWalk {
            depth,
            visited,
            excluded: Vec::new(),
            queue,
            head: 0,
            current: None,
            edges: Vec::new(),
        };
        assert(ids(w.visited@) =~= seq![center@]);
        assert(ids(w.excluded@) =~= Seq::<Seq<char>>::empty());
        assert(queued(w.queue@) =~= seq![(center@, 0u8)]);
        assert(queued(w.queue@).skip(0) =~= queued(w.queue@));
        assert(pairs(w.edges@) =~= Seq::<(Seq<char>, Seq<char>)>::empty());
        assert(ids(w.visited@)[0] == center@);
        w
    }

    /// Takes the next queued note that is shallower than the depth limit
    /// and makes it the note being expanded; `None` once the queue is
    /// exhausted. Entries at the depth limit are dropped on the way.
    pub fn next_node(&mut self) -> (r: Option<String>)
        requires
            old(self).wf(),
        ensures
            final(self).wf(),
            final(self).max_depth() == old(self).max_depth(),
            final(self).center() == old(self).center(),
            final(self).admitted() == old(self).admitted(),
            final(self).rejected() == old(self).rejected(),
            final(self).edge_list() == old(self).edge_list(),
            walk_view(*final(self)) == next_view(walk_view(*old(self))),
            ({
                let p = old(self).pending();
                let k = first_open(p, old(self).max_depth());
                if k < p.len() {
                    &&& r matches Some(id) && id@ == p[k].0
                    &&& final(self).expanding() == Some(p[k])
                    &&& final(self).pending() == p.skip(k + 1)
                } else {
                    &&& r is None
                    &&& final(self).expanding() is None
                    &&& final(self).pending() == Seq::<(Seq<char>, u8)>::empty()
                }
            }),
    {
        let ghost p0 = self.pending();
        let ghost h0 = self.head as int;
        let ghost q = queued(self.queue@);
        proof {
            lemma_first_open(p0, self.depth);
        }
        while self.head < self.queue.len()
            invariant
                self.wf(),
                q == queued(self.queue@),
                self.visited@ == old(self).visited@,
                self.excluded@ == old(self).excluded@,
                self.edges@ == old(self).edges@,
                self.queue@ == old(self).queue@,
                self.current == old(self).current,
                self.depth == old(self).depth,
                p0 == q.skip(h0),
                p0 == old(self).pending(),
                0 <= h0 <= self.head <= q.len(),
                first_open(p0, self.depth) == (self.head - h0) + first_open(
                    q.skip(self.head as int),
                    self.depth,
                ),
            decreases self.queue@.len() - self.head,
        {
            let h = self.head;
            let ghost p = q.skip(h as int);
            assert(p[0] == q[h as int]);
            assert(p.drop_first() =~= q.skip(h + 1));
            let d = self.queue[h].1;
            if d < self.depth {
                assert(first_open(p, self.depth) == 0);
                let id = self.queue[h].0.clone();
                self.head = h + 1;
                self.current = Some((id.clone(), d));
                assert(q[h as int] == (self.queue@[h as int].0@, self.queue@[h as int].1));
                assert(q[h as int] == (id@, d));
                assert(p0[h - h0] == q[h as int]);
                assert(p0.skip(h - h0 + 1) =~= q.skip(h + 1));
                return Some(id);
            }
            self.head = h + 1;
        }
        assert(q.skip(self.head as int) =~= Seq::<(Seq<char>, u8)>::empty());
        self.current = None;
        None
    }

    /// Whether the filters must be consulted for `id`: it has been neither
    /// admitted nor excluded so far.
    pub fn needs_verdict(&self, id: &str) -> (r: bool)
        ensures
            r == (!self.admitted().contains(id@) && !self.rejected().contains(id@)),
    {
        let c = chars_of(id);
        !contains_id(&self.visited, &c) && !contains_id(&self.excluded, &c)
    }

    fn consider(&mut self, other: &str, passes: bool, outgoing: bool) -> (r: bool)
        requires
            old(self).wf(),
        ensures
            final(self).wf(),
            after_considering(*old(self), *final(self), other@, passes, outgoing, r),
    {
        let ghost w = *self;
        let (node, d) = match &self.current {
            Some(c) => (c.0.clone(), c.1),
            None => {
                return false;
            },
        };
        let o = chars_of(other);
        let nc = chars_of(node.as_str());
        if chars_equal(&o, &nc) {
            return false;
        }
        let known = contains_id(&self.visited, &o);
        let barred = contains_id(&self.excluded, &o);
        let ghost v = ids(self.visited@);
        let ghost x = ids(self.excluded@);
        let ghost qv = queued(self.queue@);
        let ghost hops0 = self.hop_counts();
        let ghost edges0 = pairs(self.edges@);
        let ghost jc = choose|j: int| 0 <= j < self.head && qv[j] == (nc@, d);
        let keep = if known {
            true
        } else if barred {
            false
        } else if passes {
            self.visited.push(other.to_owned());
            self.queue.push((other.to_owned(), d + 1));
            assert(ids(self.visited@) =~= v.push(other@));
            assert(queued(self.queue@) =~= qv.push((other@, (d + 1) as u8)));
            assert(queued(self.queue@).skip(self.head as int) =~= qv.skip(self.head as int).push(
                (other@, (d + 1) as u8),
            ));
            assert forall|i: int| 0 <= i < x.len() implies !ids(self.visited@).contains(
                #[trigger] x[i],
            ) by {
                if ids(self.visited@).contains(x[i]) {
                    let j = choose|j: int|
                        0 <= j < ids(self.visited@).len() && ids(self.visited@)[j] == x[i];
                    if j < v.len() {
                        assert(v[j] == x[i]);
                        assert(v.contains(x[i]));
                    } else {
                        assert(x.contains(other@));
                    }
                }
            }
            assert forall|i: int| 0 <= i < queued(self.queue@).len() implies ids(
                self.visited@,
            ).contains((#[trigger] queued(self.queue@)[i]).0) by {
                if i < qv.len() {
                    assert(queued(self.queue@)[i] == qv[i]);
                    assert(v.contains(qv[i].0));
                    let j = choose|j: int| 0 <= j < v.len() && v[j] == qv[i].0;
                    assert(ids(self.visited@)[j] == v[j]);
                } else {
                    assert(ids(self.visited@)[v.len() as int] == other@);
                }
            }
            true
        } else {
            self.excluded.push(other.to_owned());
            assert(ids(self.excluded@) =~= x.push(other@));
            assert forall|i: int| 0 <= i < ids(self.excluded@).len() implies !v.contains(
                #[trigger] ids(self.excluded@)[i],
            ) by {
                if i < x.len() {
                    assert(ids(self.excluded@)[i] == x[i]);
                }
            }
            false
        };
        let ghost v2 = ids(self.visited@);
        assert(v2.contains(nc@)) by {
            let j = choose|j: int| 0 <= j < v.len() && v[j] == nc@;
            assert(v2[j] == v[j]);
        }
        assert(keep ==> v2.contains(o@)) by {
            if known {
                let j = choose|j: int| 0 <= j < v.len() && v[j] == o@;
                assert(v2[j] == v[j]);
            } else if keep {
                assert(v2[v.len() as int] == o@);
            }
        }
        assert forall|i: int| 0 <= i < pairs(self.edges@).len() implies v2.contains(
            (#[trigger] pairs(self.edges@)[i]).0,
        ) && v2.contains(pairs(self.edges@)[i].1) by {
            let e = pairs(self.edges@)[i];
            let a = choose|j: int| 0 <= j < v.len() && v[j] == e.0;
            let b = choose|j: int| 0 <= j < v.len() && v[j] == e.1;
            assert(v2[a] == v[a]);
            assert(v2[b] == v[b]);
        }
        if keep {
            let (s, t) = if outgoing {
                (node, other.to_owned())
            } else {
                (other.to_owned(), node)
            };
            let sc = chars_of(s.as_str());
            let tc = chars_of(t.as_str());
            if !contains_pair(&self.edges, &sc, &tc) {
                let ghost e0 = pairs(self.edges@);
                self.edges.push((s, t));
                assert(pairs(self.edges@) =~= e0.push((sc@, tc@)));
                assert forall|i: int| 0 <= i < pairs(self.edges@).len() implies v2.contains(
                    (#[trigger] pairs(self.edges@)[i]).0,
                ) && v2.contains(pairs(self.edges@)[i].1) && pairs(self.edges@)[i].0 != pairs(
                    self.edges@,
                )[i].1 by {
                    if i < e0.len() {
                        assert(pairs(self.edges@)[i] == e0[i]);
                    }
                }
            }
        }
        proof {
            assert(self.current == w.current);
            assert(v2[0] == v[0]);
            let q2 = queued(self.queue@);
            let h2 = self.hop_counts();
            let e2 = pairs(self.edges@);
            let fresh = keep && !known;
            assert(q2 =~= (if fresh { qv.push((o@, (d + 1) as u8)) } else { qv }));
            assert(v2 =~= (if fresh { v.push(o@) } else { v }));
            assert(h2 =~= (if fresh { hops0.push((d + 1) as u8) } else { hops0 }));
            assert(hops0 =~= qv.map_values(|e: (Seq<char>, u8)| e.1));
            assert(h2[0] == hops0[0]);
            assert(qv[jc] == (nc@, d));
            assert(q2[jc] == qv[jc]);
            assert(v[jc] == nc@);
            assert forall|y: (Seq<char>, Seq<char>)| edges0.contains(y) implies e2.contains(y) by {
                let k = choose|k: int| 0 <= k < edges0.len() && edges0[k] == y;
                if keep {
                    assert(e2 =~= add_once(edges0, if outgoing { (nc@, o@) } else { (o@, nc@) }));
                }
                assert(e2[k] == y);
            }
            if keep {
                let edge = if outgoing { (nc@, o@) } else { (o@, nc@) };
                assert(e2 =~= add_once(edges0, edge));
                assert(e2.contains(edge)) by {
                    if !edges0.contains(edge) {
                        assert(e2[edges0.len() as int] == edge);
                    }
                }
            }
            assert forall|i: int| 1 <= i < v2.len() implies #[trigger] reached_from_earlier(
                v2,
                h2,
                e2,
                i,
            ) by {
                if i < v.len() {
                    assert(reached_from_earlier(v, hops0, edges0, i));
                    let j = choose|j: int|
                        0 <= j < i && hops0[j] + 1 == hops0[i] && (edges0.contains((v[j], v[i]))
                            || edges0.contains((v[i], v[j])));
                    assert(v2[j] == v[j] && v2[i] == v[i] && h2[j] == hops0[j] && h2[i] == hops0[i]);
                } else {
                    assert(i == v.len());
                    assert(v2[i] == o@ && h2[i] == (d + 1) as u8);
                    assert(v2[jc] == nc@ && h2[jc] == d);
                }
            }
        }
        keep
    }

    /// Considers `target`, the resolved target of an outgoing link of the
    /// note being expanded; returns whether the edge to it is kept.
    pub fn consider_target(&mut self, target: &str, passes: bool) -> (r: bool)
        requires
            old(self).wf(),
        ensures
            final(self).wf(),
            after_considering(*old(self), *final(self), target@, passes, true, r),
            walk_view(*final(self)) == considered_view(walk_view(*old(self)), target@, passes, true),
    {
        let ghost w = *self;
        let r = self.consider(target, passes, true);
        proof {
            lemma_considered_view(w, *self, target@, passes, true, r);
        }
        r
    }

    /// Considers `source`, the note of an incoming link of the note being
    /// expanded; returns whether the edge from it is kept.
    pub fn consider_source(&mut self, source: &str, passes: bool) -> (r: bool)
        requires
            old(self).wf(),
        ensures
            final(self).wf(),
            after_considering(*old(self), *final(self), source@, passes, false, r),
            walk_view(*final(self)) == considered_view(walk_view(*old(self)), source@, passes, false),
    {
        let ghost w = *self;
        let r = self.consider(source, passes, false);
        proof {
            lemma_considered_view(w, *self, source@, passes, false, r);
        }
        r
    }

    /// The admitted notes, the center first.
    pub fn admitted_notes(&self) -> (r: Vec<String>)
        ensures
            ids(r@) == self.admitted(),
    {
        let mut out: Vec<String> = Vec::new();
        let mut i: usize = 0;
        while i < self.visited.len()
            invariant
                i <= self.visited@.len(),
                ids(out@) == ids(self.visited@).take(i as int),
            decreases self.visited@.len() - i,
        {
            let ghost before = ids(out@);
            out.push(self.visited[i].clone());
            assert(ids(out@) =~= before.push(self.visited@[i as int]@));
            assert(ids(self.visited@).take(i + 1) =~= ids(self.visited@).take(i as int).push(
                self.visited@[i as int]@,
            ));
            i = i + 1;
        }
        assert(ids(self.visited@).take(i as int) =~= ids(self.visited@));
        out
    }

    /// The kept edges whose endpoints are both in `kept`, in edge order.
    pub fn edges_within(&self, kept: &Vec<String>) -> (r: Vec<(String, String)>)
        ensures
            pairs(r@) == graph_edge_order(self.edge_list(), ids(kept@)),
    {
        graph_edges(&self.edges, kept)
    }
}

/// Invariants of every walk: the center stays admitted; no note is both
/// admitted and excluded; every queued note is admitted and no deeper than
/// the depth limit; the kept edges are distinct, each joining two admitted
/// notes and never a note to itself; and the admitted notes form a
/// breadth-first tree: the center is at hop 0, no note is further than the
/// depth limit, and every other note is joined by a kept edge to an
/// earlier admitted note one hop closer to the center.
pub proof fn walk_invariants(w: NeighborhoodWalk)
    requires
        w.wf(),
    ensures
        w.admitted().contains(w.center()),
        w.hop_counts().len() == w.admitted().len(),
        w.hop_counts()[0] == 0,
        forall|i: int| 0 <= i < w.hop_counts().len() ==> #[trigger] w.hop_counts()[i] <= w.max_depth(),
        forall|i: int|
            1 <= i < w.admitted().len() ==> #[trigger] reached_from_earlier(
                w.admitted(),
                w.hop_counts(),
                w.edge_list(),
                i,
            ),
        forall|i: int| 0 <= i < w.rejected().len() ==> !w.admitted().contains(#[trigger] w.rejected()[i]),
        forall|i: int|
            0 <= i < w.pending().len() ==> w.admitted().contains((#[trigger] w.pending()[i]).0)
                && w.pending()[i].1 <= w.max_depth(),
        w.edge_list().no_duplicates(),
        forall|i: int|
            0 <= i < w.edge_list().len() ==> w.admitted().contains((#[trigger] w.edge_list()[i]).0)
                && w.admitted().contains(w.edge_list()[i].1) && w.edge_list()[i].0
                != w.edge_list()[i].1,
{
    assert(w.admitted()[0] == w.center());
    assert forall|i: int| 0 <= i < w.hop_counts().len() implies #[trigger] w.hop_counts()[i]
        <= w.max_depth() by {
        assert(w.hop_counts()[i] == queued(w.queue@)[i].1);
    }
    assert forall|i: int| 0 <= i < w.pending().len() implies w.admitted().contains(
        (#[trigger] w.pending()[i]).0,
    ) && w.pending()[i].1 <= w.max_depth() by {
        assert(w.pending()[i] == queued(w.queue@)[w.head + i]);
    }
}

// ---------------------------------------------------------------------------
// Edge order
// ---------------------------------------------------------------------------

/// Edges are ordered by source, then by target.
pub open spec fn pair_lt(a: (Seq<char>, Seq<char>), b: (Seq<char>, Seq<char>)) -> bool {
    lex_lt(a.0, b.0) || (a.0 == b.0 && lex_lt(a.1, b.1))
}

/// Inserts `x` after every edge that does not sort after it.
pub open spec fn insert_pair(s: Seq<(Seq<char>, Seq<char>)>, x: (Seq<char>, Seq<char>)) -> Seq<
    (Seq<char>, Seq<char>),
>
    decreases s.len(),
{
    if s.len() == 0 {
        seq![x]
    } else if !pair_lt(x, s.last()) {
        s.push(x)
    } else {
        insert_pair(s.drop_last(), x).push(s.last())
    }
}

/// Edges sorted by source, then target.
pub open spec fn sort_pairs(s: Seq<(Seq<char>, Seq<char>)>) -> Seq<(Seq<char>, Seq<char>)>
    decreases s.len(),
{
    if s.len() == 0 {
        Seq::empty()
    } else {
        insert_pair(sort_pairs(s.drop_last()), s.last())
    }
}

/// The edges with their repeats removed (first occurrences kept).
pub open spec fn distinct_pairs(s: Seq<(Seq<char>, Seq<char>)>) -> Seq<(Seq<char>, Seq<char>)>
    decreases s.len(),
{
    if s.len() == 0 {
        Seq::empty()
    } else {
        add_once(distinct_pairs(s.drop_last()), s.last())
    }
}

/// The edges that join two different notes of `kept`.
pub open spec fn kept_pairs(s: Seq<(Seq<char>, Seq<char>)>, kept: Seq<Seq<char>>) -> Seq<
    (Seq<char>, Seq<char>),
>
    decreases s.len(),
{
    if s.len() == 0 {
        Seq::empty()
    } else {
        let e = s.last();
        let k = kept_pairs(s.drop_last(), kept);
        if e.0 != e.1 && kept.contains(e.0) && kept.contains(e.1) {
            k.push(e)
        } else {
            k
        }
    }
}

/// The edges of a graph over the notes `kept`: the link rows that join two
/// different kept notes, each once, sorted by source and then target.
pub open spec fn graph_edge_order(
    rows: Seq<(Seq<char>, Seq<char>)>,
    kept: Seq<Seq<char>>,
) -> Seq<(Seq<char>, Seq<char>)> {
    sort_pairs(distinct_pairs(kept_pairs(rows, kept)))
}

proof fn lemma_insert_pair(s: Seq<(Seq<char>, Seq<char>)>, x: (Seq<char>, Seq<char>), p: int)
    requires
        0 <= p <= s.len(),
        forall|k: int| p <= k < s.len() ==> pair_lt(x, #[trigger] s[k]),
        p > 0 ==> !pair_lt(x, s[p - 1]),
    ensures
        insert_pair(s, x) == s.insert(p, x),
    decreases s.len(),
{
    if s.len() == 0 {
        assert(s.insert(p, x) =~= seq![x]);
    } else if p == s.len() {
        assert(s.insert(p, x) =~= s.push(x));
    } else {
        let init = s.drop_last();
        assert forall|k: int| p <= k < init.len() implies pair_lt(x, #[trigger] init[k]) by {
            assert(init[k] == s[k]);
        }
        if p > 0 {
            assert(init[p - 1] == s[p - 1]);
        }
        lemma_insert_pair(init, x, p);
        assert(init.insert(p, x).push(s.last()) =~= s.insert(p, x));
    }
}

fn pair_less(a: &(String, String), b: &(String, String)) -> (r: bool)
    ensures
        r == pair_lt((a.0@, a.1@), (b.0@, b.1@)),
{
    let a0 = chars_of(a.0.as_str());
    let b0 = chars_of(b.0.as_str());
    if lex_less(&a0, &b0) {
        return true;
    }
    if !chars_equal(&a0, &b0) {
        return false;
    }
    lex_less(&chars_of(a.1.as_str()), &chars_of(b.1.as_str()))
}

/// The edges of a graph over the notes `kept`, from link rows given as
/// (source, target): rows joining a note to itself or touching a note
/// outside `kept` are dropped, repeats are dropped, and the rest are
/// sorted by source and then target.
pub fn graph_edges(rows: &Vec<(String, String)>, kept: &Vec<String>) -> (r: Vec<(String, String)>)
    ensures
        pairs(r@) == graph_edge_order(pairs(rows@), ids(kept@)),
{
    let ghost rv = pairs(rows@);
    let ghost kv = ids(kept@);
    let mut acc: Vec<(String, String)> = Vec::new();
    let mut k: usize = 0;
    assert(rv.take(0) =~= Seq::<(Seq<char>, Seq<char>)>::empty());
    assert(pairs(acc@) =~= Seq::<(Seq<char>, Seq<char>)>::empty());
    while k < rows.len()
        invariant
            k <= rows@.len(),
            rv == pairs(rows@),
            kv == ids(kept@),
            pairs(acc@) == distinct_pairs(kept_pairs(rv.take(k as int), kv)),
        decreases rows@.len() - k,
    {
        let s = chars_of(rows[k].0.as_str());
        let t = chars_of(rows[k].1.as_str());
        let ghost e = rv[k as int];
        let ghost before = kept_pairs(rv.take(k as int), kv);
        assert(rv.take(k + 1).drop_last() =~= rv.take(k as int));
        assert(rv.take(k + 1).last() == e);
        assert(e == (s@, t@));
        if !chars_equal(&s, &t) && contains_id(kept, &s) && contains_id(kept, &t) {
            assert(kept_pairs(rv.take(k + 1), kv) == before.push(e));
            assert(before.push(e).drop_last() =~= before);
            if !contains_pair(&acc, &s, &t) {
                let ghost a0 = pairs(acc@);
                acc.push((rows[k].0.clone(), rows[k].1.clone()));
                assert(pairs(acc@) =~= a0.push(e));
            }
        } else {
            assert(kept_pairs(rv.take(k + 1), kv) == before);
        }
        k = k + 1;
    }
    assert(rv.take(k as int) =~= rv);
    let ghost av = pairs(acc@);
    let mut out: Vec<(String, String)> = Vec::new();
    let mut i: usize = 0;
    assert(av.take(0) =~= Seq::<(Seq<char>, Seq<char>)>::empty());
    assert(pairs(out@) =~= Seq::<(Seq<char>, Seq<char>)>::empty());
    while i < acc.len()
        invariant
            i <= acc@.len(),
            av == pairs(acc@),
            pairs(out@) == sort_pairs(av.take(i as int)),
        decreases acc@.len() - i,
    {
        let x = &acc[i];
        let ghost ov = pairs(out@);
        let ghost xv = (x.0@, x.1@);
        let mut p = out.len();
        while p > 0 && pair_less(x, &out[p - 1])
            invariant
                p <= out@.len(),
                ov == pairs(out@),
                xv == (x.0@, x.1@),
                forall|q: int| p <= q < ov.len() ==> pair_lt(xv, #[trigger] ov[q]),
            decreases p,
        {
            assert(ov[p - 1] == (out@[p - 1].0@, out@[p - 1].1@));
            p = p - 1;
        }
        proof {
            if p > 0 {
                assert(ov[p - 1] == (out@[p - 1].0@, out@[p - 1].1@));
            }
            lemma_insert_pair(ov, xv, p as int);
            assert(av.take(i + 1).drop_last() =~= av.take(i as int));
            assert(av.take(i + 1).last() == xv);
        }
        out.insert(p, (x.0.clone(), x.1.clone()));
        assert(pairs(out@) =~= ov.insert(p as int, xv));
        i = i + 1;
    }
    assert(av.take(i as int) =~= av);
    out
}


// ---------------------------------------------------------------------------
// Laws of the edge order
// ---------------------------------------------------------------------------

/// Strictly increasing by source, then target.
pub open spec fn strictly_sorted(s: Seq<(Seq<char>, Seq<char>)>) -> bool {
    forall|i: int, j: int| 0 <= i < j < s.len() ==> pair_lt(#[trigger] s[i], #[trigger] s[j])
}

proof fn lemma_pair_order(a: (Seq<char>, Seq<char>), b: (Seq<char>, Seq<char>), c: (Seq<char>, Seq<char>))
    ensures
        !pair_lt(a, a),
        pair_lt(a, b) ==> !pair_lt(b, a),
        pair_lt(a, b) && pair_lt(b, c) ==> pair_lt(a, c),
        a == b || pair_lt(a, b) || pair_lt(b, a),
{
    crate::order::lemma_lex_irreflexive(a.0);
    crate::order::lemma_lex_irreflexive(a.1);
    crate::order::lemma_lex_asymmetric(a.0, b.0);
    crate::order::lemma_lex_asymmetric(a.1, b.1);
    crate::order::lemma_lex_total(a.0, b.0);
    crate::order::lemma_lex_total(a.1, b.1);
    if lex_lt(a.0, b.0) && lex_lt(b.0, c.0) {
        crate::order::lemma_lex_transitive(a.0, b.0, c.0);
    }
    if lex_lt(a.1, b.1) && lex_lt(b.1, c.1) {
        crate::order::lemma_lex_transitive(a.1, b.1, c.1);
    }
}

proof fn lemma_insert_members(s: Seq<(Seq<char>, Seq<char>)>, x: (Seq<char>, Seq<char>))
    ensures
        insert_pair(s, x).len() == s.len() + 1,
        forall|y: (Seq<char>, Seq<char>)|
            #[trigger] insert_pair(s, x).contains(y) <==> (s.contains(y) || y == x),
    decreases s.len(),
{
    let r = insert_pair(s, x);
    if s.len() == 0 {
        assert forall|y: (Seq<char>, Seq<char>)| r.contains(y) <==> (s.contains(y) || y == x) by {
            if r.contains(y) {
                assert(r[0] == x);
            }
            if y == x {
                assert(r[0] == x);
            }
        }
    } else if !pair_lt(x, s.last()) {
        assert forall|y: (Seq<char>, Seq<char>)| r.contains(y) <==> (s.contains(y) || y == x) by {
            if r.contains(y) {
                let i = choose|i: int| 0 <= i < r.len() && r[i] == y;
                if i < s.len() {
                    assert(s[i] == y);
                }
            }
            if s.contains(y) {
                let i = choose|i: int| 0 <= i < s.len() && s[i] == y;
                assert(r[i] == y);
            }
            if y == x {
                assert(r[s.len() as int] == x);
            }
        }
    } else {
        let init = s.drop_last();
        let r0 = insert_pair(init, x);
        lemma_insert_members(init, x);
        assert forall|y: (Seq<char>, Seq<char>)| r.contains(y) <==> (s.contains(y) || y == x) by {
            if r.contains(y) {
                let i = choose|i: int| 0 <= i < r.len() && r[i] == y;
                if i < r0.len() {
                    assert(r0[i] == y);
                    assert(r0.contains(y));
                    if init.contains(y) {
                        let j = choose|j: int| 0 <= j < init.len() && init[j] == y;
                        assert(s[j] == y);
                    }
                } else {
                    assert(r[i] == s.last());
                    assert(s[s.len() - 1] == y);
                }
            }
            if s.contains(y) {
                let i = choose|i: int| 0 <= i < s.len() && s[i] == y;
                if i < init.len() {
                    assert(init[i] == y);
                    assert(r0.contains(y));
                    let j = choose|j: int| 0 <= j < r0.len() && r0[j] == y;
                    assert(r[j] == y);
                } else {
                    assert(r[r0.len() as int] == y);
                }
            }
            if y == x {
                assert(r0.contains(y));
                let j = choose|j: int| 0 <= j < r0.len() && r0[j] == y;
                assert(r[j] == y);
            }
        }
    }
}

proof fn lemma_insert_strict(s: Seq<(Seq<char>, Seq<char>)>, x: (Seq<char>, Seq<char>))
    requires
        strictly_sorted(s),
        !s.contains(x),
    ensures
        strictly_sorted(insert_pair(s, x)),
    decreases s.len(),
{
    let r = insert_pair(s, x);
    if s.len() == 0 {
    } else if !pair_lt(x, s.last()) {
        lemma_pair_order(x, s.last(), x);
        assert(s.last() != x) by {
            assert(s[s.len() - 1] == s.last());
        }
        assert forall|i: int, j: int| 0 <= i < j < r.len() implies pair_lt(#[trigger] r[i], #[trigger] r[j]) by {
            if j == s.len() {
                if i < s.len() - 1 {
                    lemma_pair_order(s[i], s.last(), x);
                    assert(pair_lt(s[i], s[s.len() - 1]));
                }
            }
        }
    } else {
        let init = s.drop_last();
        let r0 = insert_pair(init, x);
        assert(!init.contains(x)) by {
            if init.contains(x) {
                let j = choose|j: int| 0 <= j < init.len() && init[j] == x;
                assert(s[j] == x);
            }
        }
        assert(strictly_sorted(init)) by {
            assert forall|i: int, j: int| 0 <= i < j < init.len() implies pair_lt(#[trigger] init[i], #[trigger] init[j]) by {
                assert(init[i] == s[i] && init[j] == s[j]);
            }
        }
        lemma_insert_strict(init, x);
        lemma_insert_members(init, x);
        assert forall|i: int, j: int| 0 <= i < j < r.len() implies pair_lt(#[trigger] r[i], #[trigger] r[j]) by {
            if j == r0.len() {
                assert(r[j] == s.last());
                assert(r0.contains(r0[i]));
                if r0[i] != x {
                    let k = choose|k: int| 0 <= k < init.len() && init[k] == r0[i];
                    assert(pair_lt(s[k], s[s.len() - 1]));
                }
            } else {
                assert(r[i] == r0[i] && r[j] == r0[j]);
            }
        }
    }
}

proof fn lemma_sort_members(s: Seq<(Seq<char>, Seq<char>)>)
    ensures
        forall|y: (Seq<char>, Seq<char>)| #[trigger] sort_pairs(s).contains(y) <==> s.contains(y),
    decreases s.len(),
{
    if s.len() > 0 {
        let init = s.drop_last();
        lemma_sort_members(init);
        lemma_insert_members(sort_pairs(init), s.last());
        assert forall|y: (Seq<char>, Seq<char>)| sort_pairs(s).contains(y) <==> s.contains(y) by {
            if s.contains(y) {
                let i = choose|i: int| 0 <= i < s.len() && s[i] == y;
                if i < init.len() {
                    assert(init[i] == y);
                }
            }
            if init.contains(y) {
                let i = choose|i: int| 0 <= i < init.len() && init[i] == y;
                assert(s[i] == y);
            }
        }
    }
}

proof fn lemma_sort_strict(s: Seq<(Seq<char>, Seq<char>)>)
    requires
        s.no_duplicates(),
    ensures
        strictly_sorted(sort_pairs(s)),
    decreases s.len(),
{
    if s.len() > 0 {
        let init = s.drop_last();
        assert(init.no_duplicates()) by {
            assert forall|i: int, j: int| 0 <= i < j < init.len() implies init[i] != init[j] by {
                assert(init[i] == s[i] && init[j] == s[j]);
            }
        }
        lemma_sort_strict(init);
        lemma_sort_members(init);
        assert(!init.contains(s.last())) by {
            if init.contains(s.last()) {
                let j = choose|j: int| 0 <= j < init.len() && init[j] == s.last();
                assert(s[j] == s[s.len() - 1]);
            }
        }
        lemma_insert_strict(sort_pairs(init), s.last());
    }
}

proof fn lemma_distinct_members(s: Seq<(Seq<char>, Seq<char>)>)
    ensures
        distinct_pairs(s).no_duplicates(),
        forall|y: (Seq<char>, Seq<char>)| #[trigger] distinct_pairs(s).contains(y) <==> s.contains(y),
    decreases s.len(),
{
    if s.len() > 0 {
        let init = s.drop_last();
        let d = distinct_pairs(init);
        lemma_distinct_members(init);
        if !d.contains(s.last()) {
            assert(d.push(s.last()).no_duplicates()) by {
                assert forall|i: int, j: int| 0 <= i < j < d.len() + 1 implies d.push(s.last())[i]
                    != d.push(s.last())[j] by {
                    if j == d.len() {
                        assert(d.contains(d[i]));
                    }
                }
            }
        }
        assert forall|y: (Seq<char>, Seq<char>)| distinct_pairs(s).contains(y) <==> s.contains(y) by {
            if s.contains(y) {
                let i = choose|i: int| 0 <= i < s.len() && s[i] == y;
                if i < init.len() {
                    assert(init[i] == y);
                }
            }
            if init.contains(y) {
                let i = choose|i: int| 0 <= i < init.len() && init[i] == y;
                assert(s[i] == y);
            }
            if d.push(s.last()).contains(y) && !d.contains(y) {
                let i = choose|i: int| 0 <= i < d.len() + 1 && d.push(s.last())[i] == y;
                if i < d.len() {
                    assert(d[i] == y);
                }
            }
            if y == s.last() && !d.contains(y) {
                assert(d.push(s.last())[d.len() as int] == y);
            }
            if d.contains(y) {
                let i = choose|i: int| 0 <= i < d.len() && d[i] == y;
                assert(d.push(s.last())[i] == y);
            }
        }
    }
}

proof fn lemma_kept_members(s: Seq<(Seq<char>, Seq<char>)>, kept: Seq<Seq<char>>)
    ensures
        forall|y: (Seq<char>, Seq<char>)|
            #[trigger] kept_pairs(s, kept).contains(y) <==> (s.contains(y) && y.0 != y.1
                && kept.contains(y.0) && kept.contains(y.1)),
    decreases s.len(),
{
    if s.len() > 0 {
        let init = s.drop_last();
        let k = kept_pairs(init, kept);
        lemma_kept_members(init, kept);
        assert forall|y: (Seq<char>, Seq<char>)|
            kept_pairs(s, kept).contains(y) <==> (s.contains(y) && y.0 != y.1 && kept.contains(y.0)
                && kept.contains(y.1)) by {
            if s.contains(y) {
                let i = choose|i: int| 0 <= i < s.len() && s[i] == y;
                if i < init.len() {
                    assert(init[i] == y);
                }
            }
            if init.contains(y) {
                let i = choose|i: int| 0 <= i < init.len() && init[i] == y;
                assert(s[i] == y);
            }
            if k.contains(y) {
                let i = choose|i: int| 0 <= i < k.len() && k[i] == y;
                assert(k.push(s.last())[i] == y);
            }
            if k.push(s.last()).contains(y) {
                let i = choose|i: int| 0 <= i < k.len() + 1 && k.push(s.last())[i] == y;
                if i < k.len() {
                    assert(k[i] == y);
                }
            }
            if y == s.last() {
                assert(k.push(s.last())[k.len() as int] == y);
            }
        }
    }
}

proof fn lemma_strict_unique(a: Seq<(Seq<char>, Seq<char>)>, b: Seq<(Seq<char>, Seq<char>)>)
    requires
        strictly_sorted(a),
        strictly_sorted(b),
        forall|y: (Seq<char>, Seq<char>)| a.contains(y) <==> b.contains(y),
    ensures
        a == b,
    decreases a.len(),
{
    if a.len() == 0 {
        if b.len() > 0 {
            assert(b.contains(b[0]));
        }
        assert(a =~= b);
    } else {
        assert(a.contains(a[0]));
        assert(b.contains(a[0]));
        let j = choose|j: int| 0 <= j < b.len() && b[j] == a[0];
        assert(b.contains(b[0]));
        assert(a.contains(b[0]));
        let k = choose|k: int| 0 <= k < a.len() && a[k] == b[0];
        if j > 0 {
            assert(pair_lt(b[0], b[j]));
            if k > 0 {
                assert(pair_lt(a[0], a[k]));
                lemma_pair_order(a[0], b[0], a[0]);
            } else {
                lemma_pair_order(a[0], a[0], a[0]);
            }
        }
        assert(b[0] == a[0]) by {
            if j > 0 {
                lemma_pair_order(b[0], a[0], b[0]);
            }
        }
        let at = a.drop_first();
        let bt = b.drop_first();
        assert forall|y: (Seq<char>, Seq<char>)| at.contains(y) <==> bt.contains(y) by {
            if at.contains(y) {
                let i = choose|i: int| 0 <= i < at.len() && at[i] == y;
                assert(a[i + 1] == y);
                assert(pair_lt(a[0], a[i + 1]));
                lemma_pair_order(a[0], y, a[0]);
                assert(b.contains(y));
                let m = choose|m: int| 0 <= m < b.len() && b[m] == y;
                assert(m != 0);
                assert(bt[m - 1] == y);
            }
            if bt.contains(y) {
                let i = choose|i: int| 0 <= i < bt.len() && bt[i] == y;
                assert(b[i + 1] == y);
                assert(pair_lt(b[0], b[i + 1]));
                lemma_pair_order(b[0], y, b[0]);
                assert(a.contains(y));
                let m = choose|m: int| 0 <= m < a.len() && a[m] == y;
                assert(m != 0);
                assert(at[m - 1] == y);
            }
        }
        assert(strictly_sorted(at)) by {
            assert forall|i: int, j: int| 0 <= i < j < at.len() implies pair_lt(#[trigger] at[i], #[trigger] at[j]) by {
                assert(at[i] == a[i + 1] && at[j] == a[j + 1]);
            }
        }
        assert(strictly_sorted(bt)) by {
            assert forall|i: int, j: int| 0 <= i < j < bt.len() implies pair_lt(#[trigger] bt[i], #[trigger] bt[j]) by {
                assert(bt[i] == b[i + 1] && bt[j] == b[j + 1]);
            }
        }
        lemma_strict_unique(at, bt);
        assert(a =~= seq![a[0]] + at);
        assert(b =~= seq![b[0]] + bt);
    }
}

/// The edges of a graph come out strictly ordered by source and then
/// target, and they are exactly the rows that join two different kept
/// notes.
pub proof fn graph_edges_sorted_and_exact(
    rows: Seq<(Seq<char>, Seq<char>)>,
    kept: Seq<Seq<char>>,
)
    ensures
        strictly_sorted(graph_edge_order(rows, kept)),
        forall|y: (Seq<char>, Seq<char>)|
            #[trigger] graph_edge_order(rows, kept).contains(y) <==> (rows.contains(y) && y.0
                != y.1 && kept.contains(y.0) && kept.contains(y.1)),
{
    let k = kept_pairs(rows, kept);
    lemma_kept_members(rows, kept);
    lemma_distinct_members(k);
    lemma_sort_members(distinct_pairs(k));
    lemma_sort_strict(distinct_pairs(k));
}

/// The edges of a graph depend only on which rows there are, not on their
/// order or repeats: rows read in any order give the same edge list.
pub proof fn graph_edges_ignore_row_order(
    rows1: Seq<(Seq<char>, Seq<char>)>,
    rows2: Seq<(Seq<char>, Seq<char>)>,
    kept: Seq<Seq<char>>,
)
    requires
        forall|y: (Seq<char>, Seq<char>)| rows1.contains(y) <==> rows2.contains(y),
    ensures
        graph_edge_order(rows1, kept) == graph_edge_order(rows2, kept),
{
    graph_edges_sorted_and_exact(rows1, kept);
    graph_edges_sorted_and_exact(rows2, kept);
    lemma_strict_unique(graph_edge_order(rows1, kept), graph_edge_order(rows2, kept));
}

} // verus!
