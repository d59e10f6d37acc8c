//! Self-write suppression for the file watcher.
//!
//! Before the app writes a file it registers the path in a
//! [`WriteTokenSet`]; the watcher then skips the event for that path and
//! consumes the token. Tokens that are never consumed expire after
//! [`TOKEN_TTL_MS`]. Time is a monotonic clock in milliseconds read by the
//! caller and passed in.

use vstd::prelude::*;
use crate::order::chars_equal;
use crate::text::chars_of;

verus! {

/// How long a write token survives without being consumed, in milliseconds.
pub const TOKEN_TTL_MS: u64 = 2000;

/// Paths the app has written and expects a watcher event for, each with
/// the time its token expires.
pub struct WriteTokenSet {
    tokens: Vec<(String, u64)>,
}

/// The tokens as a map from path to expiry time.
pub open spec fn token_map(tokens: Seq<(String, u64)>) -> Map<Seq<char>, u64>
    decreases tokens.len(),
{
    if tokens.len() == 0 {
        Map::empty()
    } else {
        token_map(tokens.drop_last()).insert(tokens.last().0@, tokens.last().1)
    }
}

pub open spec fn distinct_tokens(tokens: Seq<(String, u64)>) -> bool {
    forall|i: int, j: int| 0 <= i < j < tokens.len() ==> tokens[i].0@ != tokens[j].0@
}

/// The set after registering `path` at time `now`.
pub open spec fn registered(m: Map<Seq<char>, u64>, path: Seq<char>, now: u64) -> Map<
    Seq<char>,
    u64,
> {
    m.insert(path, (now + TOKEN_TTL_MS) as u64)
}

/// The tokens still live at time `now`.
pub open spec fn live_at(m: Map<Seq<char>, u64>, now: u64) -> Map<Seq<char>, u64> {
    m.restrict(m.dom().filter(|p: Seq<char>| m[p] > now))
}

/// Whether consuming `path` at `now` finds a live token.
pub open spec fn consumes(m: Map<Seq<char>, u64>, path: Seq<char>, now: u64) -> bool {
    live_at(m, now).dom().contains(path)
}

/// The set after consuming `path` at `now`: expired tokens pruned, the
/// path's token removed.
pub open spec fn after_consume(m: Map<Seq<char>, u64>, path: Seq<char>, now: u64) -> Map<
    Seq<char>,
    u64,
> {
    live_at(m, now).remove(path)
}

proof fn lemma_token_map_distinct(tokens: Seq<(String, u64)>)
    requires
        distinct_tokens(tokens),
    ensures
        forall|i: int|
            0 <= i < tokens.len() ==> token_map(tokens).dom().contains((#[trigger] tokens[i]).0@)
                && token_map(tokens)[tokens[i].0@] == tokens[i].1,
        forall|p: Seq<char>|
            token_map(tokens).dom().contains(p) ==> exists|i: int|
                0 <= i < tokens.len() && (#[trigger] tokens[i]).0@ == p,
        token_map(tokens).dom().finite(),
    decreases tokens.len(),
{
    if tokens.len() > 0 {
        let init = tokens.drop_last();
        assert(distinct_tokens(init)) by {
            assert forall|i: int, j: int| 0 <= i < j < init.len() implies init[i].0@ != init[j].0@ by {
                assert(init[i] == tokens[i] && init[j] == tokens[j]);
            }
        }
        lemma_token_map_distinct(init);
        assert forall|i: int| 0 <= i < tokens.len() implies token_map(tokens).dom().contains(
            (#[trigger] tokens[i]).0@,
        ) && token_map(tokens)[tokens[i].0@] == tokens[i].1 by {
            if i < tokens.len() - 1 {
                assert(init[i] == tokens[i]);
                assert(tokens[i].0@ != tokens.last().0@);
            }
        }
        assert forall|p: Seq<char>| token_map(tokens).dom().contains(p) implies exists|i: int|
            0 <= i < tokens.len() && (#[trigger] tokens[i]).0@ == p by {
            if p != tokens.last().0@ {
                let i = choose|i: int| 0 <= i < init.len() && (#[trigger] init[i]).0@ == p;
                assert(tokens[i] == init[i]);
            } else {
                assert(tokens[tokens.len() - 1].0@ == p);
            }
        }
    }
}

impl WriteTokenSet {
    pub closed spec fn wf(&self) -> bool {
        distinct_tokens(self.tokens@)
    }

    /// The live tokens: path to expiry time.
    pub closed spec fn view(&self) -> Map<Seq<char>, u64> {
        token_map(self.tokens@)
    }

    pub fn new() -> (r: Self)
        ensures
            r.wf(),
            r.view() == Map::<Seq<char>, u64>::empty(),
    {
        WriteTokenSet { tokens: Vec::new() }
    }

    /// Register that the app is about to write `path` at time `now`.
    pub fn insert(&mut self, path: String, now: u64)
        requires
            old(self).wf(),
            now <= u64::MAX - TOKEN_TTL_MS,
        ensures
            final(self).wf(),
            final(self).view() == registered(old(self).view(), path@, now),
    {
        let ghost old_tokens = self.tokens@;
        proof {
            lemma_token_map_distinct(old_tokens);
        }
        let p = chars_of(path.as_str());
        let mut kept: Vec<(String, u64)> = Vec::new();
        let mut i: usize = 0;
        while i < self.tokens.len()
            invariant
                i <= self.tokens@.len(),
                self.tokens@ == old_tokens,
                distinct_tokens(old_tokens),
                p@ == path@,
                distinct_tokens(kept@),
                forall|k: int| 0 <= k < kept@.len() ==> (#[trigger] kept@[k]).0@ != path@,
                token_map(kept@) == token_map(old_tokens.take(i as int)).remove(path@),
            decreases self.tokens@.len() - i,
        {
            let entry = &self.tokens[i];
            assert(old_tokens.take(i + 1).drop_last() =~= old_tokens.take(i as int));
            assert(old_tokens.take(i + 1).last() == old_tokens[i as int]);
            let ghost before = kept@;
            if !chars_equal(&chars_of(entry.0.as_str()), &p) {
                kept.push((entry.0.clone(), entry.1));
                proof {
                    assert(kept@.drop_last() =~= before);
                    assert forall|a: int, b: int| 0 <= a < b < kept@.len() implies kept@[a].0@
                        != kept@[b].0@ by {
                        if b == kept@.len() - 1 {
                            lemma_token_map_distinct(before);
                            if kept@[a].0@ == kept@[b].0@ {
                                assert(kept@[a] == before[a]);
                                assert(token_map(before).dom().contains(before[a].0@));
                                lemma_token_map_prefix(old_tokens, i as int, path@, before[a].0@);
                            }
                        } else {
                            assert(kept@[a] == before[a] && kept@[b] == before[b]);
                        }
                    }
                    assert(token_map(kept@) =~= token_map(old_tokens.take(i + 1)).remove(path@));
                }
            } else {
                assert(token_map(before) =~= token_map(old_tokens.take(i + 1)).remove(path@));
            }
            i = i + 1;
        }
        assert(old_tokens.take(i as int) =~= old_tokens);
        let ghost kv = kept@;
        kept.push((path, now + TOKEN_TTL_MS));
        proof {
            assert(kept@.drop_last() =~= kv);
            assert forall|a: int, b: int| 0 <= a < b < kept@.len() implies kept@[a].0@
                != kept@[b].0@ by {
                if b == kept@.len() - 1 {
                    assert(kept@[a] == kv[a]);
                } else {
                    assert(kept@[a] == kv[a] && kept@[b] == kv[b]);
                }
            }
            assert(token_map(kept@) =~= token_map(old_tokens).remove(path@).insert(
                path@,
                (now + TOKEN_TTL_MS) as u64,
            ));
            assert(token_map(old_tokens).remove(path@).insert(path@, (now + TOKEN_TTL_MS) as u64)
                =~= registered(token_map(old_tokens), path@, now));
        }
        self.tokens = kept;
    }

    /// Returns `true` and removes the token if `path` was registered and
    /// has not yet expired at time `now`. Also prunes every expired token.
    pub fn consume(&mut self, path: &str, now: u64) -> (r: bool)
        requires
            old(self).wf(),
        ensures
            final(self).wf(),
            r == consumes(old(self).view(), path@, now),
            final(self).view() == after_consume(old(self).view(), path@, now),
    {
        let ghost old_tokens = self.tokens@;
        let ghost m = token_map(old_tokens);
        proof {
            lemma_token_map_distinct(old_tokens);
        }
        let p = chars_of(path);
        let mut kept: Vec<(String, u64)> = Vec::new();
        let mut found = false;
        let mut i: usize = 0;
        while i < self.tokens.len()
            invariant
                i <= self.tokens@.len(),
                self.tokens@ == old_tokens,
                m == token_map(old_tokens),
                distinct_tokens(old_tokens),
                p@ == path@,
                distinct_tokens(kept@),
                forall|k: int| 0 <= k < kept@.len() ==> taken_from(old_tokens, i as int, #[trigger] kept@[k]),
                token_map(kept@) == after_consume(token_map(old_tokens.take(i as int)), path@, now),
                found == consumes(token_map(old_tokens.take(i as int)), path@, now),
            decreases self.tokens@.len() - i,
        {
            let entry = &self.tokens[i];
            let ghost pre = old_tokens.take(i as int);
            let ghost post = old_tokens.take(i + 1);
            assert(post.drop_last() =~= pre);
            assert(post.last() == old_tokens[i as int]);
            let ghost before = kept@;
            let same = chars_equal(&chars_of(entry.0.as_str()), &p);
            if entry.1 > now {
                if same {
                    found = true;
                } else {
                    kept.push((entry.0.clone(), entry.1));
                }
            }
            proof {
                lemma_consume_step(old_tokens, i as int, path@, now);
                if entry.1 > now && !same {
                    assert(kept@.drop_last() =~= before);
                    assert forall|a: int, b: int| 0 <= a < b < kept@.len() implies kept@[a].0@
                        != kept@[b].0@ by {
                        if b == kept@.len() - 1 {
                            assert(kept@[a] == before[a]);
                            assert(taken_from(old_tokens, i as int, before[a]));
                            let j = choose|j: int| 0 <= j < i && (#[trigger] old_tokens[j]) == before[a];
                            assert(old_tokens[j].0@ != old_tokens[i as int].0@);
                        } else {
                            assert(kept@[a] == before[a] && kept@[b] == before[b]);
                        }
                    }
                    assert forall|k: int| 0 <= k < kept@.len() implies taken_from(
                        old_tokens,
                        i + 1,
                        #[trigger] kept@[k],
                    ) by {
                        if k == kept@.len() - 1 {
                            assert(old_tokens[i as int] == kept@[k]);
                        } else {
                            assert(kept@[k] == before[k]);
                            assert(taken_from(old_tokens, i as int, before[k]));
                        }
                    }
                }
                if !(entry.1 > now && !same) {
                    assert forall|k: int| 0 <= k < kept@.len() implies taken_from(
                        old_tokens,
                        i + 1,
                        #[trigger] kept@[k],
                    ) by {
                        assert(taken_from(old_tokens, i as int, kept@[k]));
                    }
                }
            }
            i = i + 1;
        }
        assert(old_tokens.take(i as int) =~= old_tokens);
        self.tokens = kept;
        found
    }
}

/// `e` is one of the first `i` tokens.
pub open spec fn taken_from(tokens: Seq<(String, u64)>, i: int, e: (String, u64)) -> bool {
    exists|j: int| 0 <= j < i && (#[trigger] tokens[j]) == e
}

proof fn lemma_token_map_prefix(tokens: Seq<(String, u64)>, i: int, path: Seq<char>, q: Seq<char>)
    requires
        distinct_tokens(tokens),
        0 <= i < tokens.len(),
        token_map(tokens.take(i)).remove(path).dom().contains(q),
    ensures
        q != tokens[i].0@,
{
    let pre = tokens.take(i);
    assert(distinct_tokens(pre)) by {
        assert forall|a: int, b: int| 0 <= a < b < pre.len() implies pre[a].0@ != pre[b].0@ by {
            assert(pre[a] == tokens[a] && pre[b] == tokens[b]);
        }
    }
    lemma_token_map_distinct(pre);
    let j = choose|j: int| 0 <= j < pre.len() && (#[trigger] pre[j]).0@ == q;
    assert(pre[j] == tokens[j]);
}

proof fn lemma_consume_step(tokens: Seq<(String, u64)>, i: int, path: Seq<char>, now: u64)
    requires
        distinct_tokens(tokens),
        0 <= i < tokens.len(),
    ensures
        ({
            let pre = token_map(tokens.take(i));
            let post = token_map(tokens.take(i + 1));
            let (name, exp) = (tokens[i].0@, tokens[i].1);
            &&& consumes(post, path, now) == (consumes(pre, path, now) || (exp > now && name
                == path))
            &&& after_consume(post, path, now) == if exp > now && name != path {
                after_consume(pre, path, now).insert(name, exp)
            } else {
                after_consume(pre, path, now)
            }
        }),
{
    let pre_s = tokens.take(i);
    let post_s = tokens.take(i + 1);
    assert(post_s.drop_last() =~= pre_s);
    assert(post_s.last() == tokens[i]);
    let pre = token_map(pre_s);
    let post = token_map(post_s);
    let name = tokens[i].0@;
    let exp = tokens[i].1;
    assert(post == pre.insert(name, exp));
    assert(distinct_tokens(pre_s)) by {
        assert forall|a: int, b: int| 0 <= a < b < pre_s.len() implies pre_s[a].0@ != pre_s[b].0@ by {
            assert(pre_s[a] == tokens[a] && pre_s[b] == tokens[b]);
        }
    }
    lemma_token_map_distinct(pre_s);
    assert(!pre.dom().contains(name)) by {
        if pre.dom().contains(name) {
            let j = choose|j: int| 0 <= j < pre_s.len() && (#[trigger] pre_s[j]).0@ == name;
            assert(pre_s[j] == tokens[j]);
        }
    }
    assert(live_at(post, now) =~= if exp > now {
        live_at(pre, now).insert(name, exp)
    } else {
        live_at(pre, now)
    });
    if exp > now && name != path {
        assert(after_consume(post, path, now) =~= after_consume(pre, path, now).insert(name, exp));
    } else {
        assert(after_consume(post, path, now) =~= after_consume(pre, path, now));
    }
}

/// A token registered at `t1` is consumed by a watcher event at `t2`
/// before it expires, and only once; an event at or after its expiry does
/// not find it.
pub proof fn write_token_consumed_once(
    m: Map<Seq<char>, u64>,
    path: Seq<char>,
    t1: u64,
    t2: u64,
    t3: u64,
)
    requires
        t1 <= u64::MAX - TOKEN_TTL_MS,
    ensures
        consumes(registered(m, path, t1), path, t2) == (t2 < t1 + TOKEN_TTL_MS),
        !consumes(after_consume(registered(m, path, t1), path, t2), path, t3),
{
    let r = registered(m, path, t1);
    assert(r.dom().contains(path));
    assert(r[path] == t1 + TOKEN_TTL_MS);
    let live = live_at(r, t2);
    assert(live.dom().contains(path) == (r[path] > t2));
}

/// Registering a path again before its token is consumed only moves the
/// token's expiry: the set is as if the path had been registered at the
/// later time alone, and an event before that later expiry consumes it.
pub proof fn reregistered_token_moves_expiry(
    m: Map<Seq<char>, u64>,
    path: Seq<char>,
    t1: u64,
    t2: u64,
    now: u64,
)
    requires
        t1 <= u64::MAX - TOKEN_TTL_MS,
        t2 <= u64::MAX - TOKEN_TTL_MS,
    ensures
        registered(registered(m, path, t1), path, t2) == registered(m, path, t2),
        consumes(registered(registered(m, path, t1), path, t2), path, now) == (now < t2
            + TOKEN_TTL_MS),
{
    assert(registered(registered(m, path, t1), path, t2) =~= registered(m, path, t2));
    write_token_consumed_once(m, path, t2, now, now);
}

// ---------------------------------------------------------------------------
// Watch events
// ---------------------------------------------------------------------------

/// The kind of filesystem change relevant to the vault index.
#[derive(Debug, Clone, Copy, PartialEq, Eq)]
pub enum WatchEventKind {
    /// A new file was created.
    Create,
    /// An existing file's content was modified.
    Modify,
    /// A file was deleted.
    Remove,
}

/// A single filesystem event delivered to the change callback.
#[derive(Debug, Clone)]
pub struct WatchEvent {
    /// Absolute path to the changed file or directory.
    pub path: String,
    pub kind: WatchEventKind,
}

/// The kind of a raw watcher event.
#[derive(Debug, Clone, Copy, PartialEq, Eq)]
pub enum RawEventKind {
    Create,
    Modify,
    Remove,
    Access,
    Other,
}

/// The index-relevant kind of a raw event; access and other events are
/// ignored.
pub open spec fn relevant_kind(k: RawEventKind) -> Option<WatchEventKind> {
    match k {
        RawEventKind::Create => Some(WatchEventKind::Create),
        RawEventKind::Modify => Some(WatchEventKind::Modify),
        RawEventKind::Remove => Some(WatchEventKind::Remove),
        _ => None,
    }
}

pub fn classify(k: RawEventKind) -> (r: Option<WatchEventKind>)
    ensures
        r == relevant_kind(k),
{
    match k {
        RawEventKind::Create => Some(WatchEventKind::Create),
        RawEventKind::Modify => Some(WatchEventKind::Modify),
        RawEventKind::Remove => Some(WatchEventKind::Remove),
        _ => None,
    }
}

/// Consuming the tokens of `paths` one after another at time `now`: the
/// token map afterwards, and the paths whose token was not found (the
/// changes the app did not make itself), in order.
pub open spec fn report_paths(m: Map<Seq<char>, u64>, paths: Seq<Seq<char>>, now: u64) -> (
    Map<Seq<char>, u64>,
    Seq<Seq<char>>,
)
    decreases paths.len(),
{
    if paths.len() == 0 {
        (m, Seq::empty())
    } else {
        let prev = report_paths(m, paths.drop_last(), now);
        let p = paths.last();
        let next = after_consume(prev.0, p, now);
        if consumes(prev.0, p, now) {
            (next, prev.1)
        } else {
            (next, prev.1.push(p))
        }
    }
}

/// The raw kind and the reported kind name the same change.
pub open spec fn same_change(k: RawEventKind, w: WatchEventKind) -> bool {
    ||| k == RawEventKind::Create && w == WatchEventKind::Create
    ||| k == RawEventKind::Modify && w == WatchEventKind::Modify
    ||| k == RawEventKind::Remove && w == WatchEventKind::Remove
}

proof fn lemma_consume_keeps_dead(m: Map<Seq<char>, u64>, p: Seq<char>, q: Seq<char>, now: u64)
    requires
        !consumes(m, q, now),
    ensures
        !consumes(after_consume(m, p, now), q, now),
{
}

proof fn lemma_untracked_reported(m: Map<Seq<char>, u64>, paths: Seq<Seq<char>>, now: u64)
    requires
        forall|k: int| 0 <= k < paths.len() ==> !consumes(m, #[trigger] paths[k], now),
    ensures
        report_paths(m, paths, now).1 == paths,
        forall|q: Seq<char>| !consumes(m, q, now) ==> !consumes(report_paths(m, paths, now).0, q, now),
    decreases paths.len(),
{
    if paths.len() > 0 {
        let init = paths.drop_last();
        assert forall|k: int| 0 <= k < init.len() implies !consumes(m, #[trigger] init[k], now) by {
            assert(init[k] == paths[k]);
        }
        lemma_untracked_reported(m, init, now);
        let prev = report_paths(m, init, now);
        assert(!consumes(m, paths[paths.len() - 1], now));
        assert(!consumes(prev.0, paths.last(), now));
        assert forall|q: Seq<char>| !consumes(m, q, now) implies !consumes(
            report_paths(m, paths, now).0,
            q,
            now,
        ) by {
            lemma_consume_keeps_dead(prev.0, paths.last(), q, now);
        }
        assert(init.push(paths.last()) =~= paths);
    }
}

/// Changes made outside the app are reported with their kind: a raw
/// create, modify or remove event is relevant and is reported as the same
/// change, access and other events never are, and every path of a
/// relevant event that holds no live write token is reported, in order.
pub proof fn external_changes_are_reported(
    k: RawEventKind,
    m: Map<Seq<char>, u64>,
    paths: Seq<Seq<char>>,
    now: u64,
)
    requires
        forall|i: int| 0 <= i < paths.len() ==> !consumes(m, #[trigger] paths[i], now),
    ensures
        (k == RawEventKind::Create || k == RawEventKind::Modify || k == RawEventKind::Remove)
            ==> (relevant_kind(k) matches Some(w) && same_change(k, w)),
        (k == RawEventKind::Access || k == RawEventKind::Other) ==> relevant_kind(k) is None,
        report_paths(m, paths, now).1 == paths,
{
    lemma_untracked_reported(m, paths, now);
}

/// Handles one raw event at time `now`: each of its paths is reported
/// unless the app wrote it (its token is consumed instead). Events of a
/// kind the index ignores change nothing.
pub fn external_events(
    tokens: &mut WriteTokenSet,
    kind: RawEventKind,
    paths: &Vec<String>,
    now: u64,
    out: &mut Vec<WatchEvent>,
)
    requires
        old(tokens).wf(),
    ensures
        final(tokens).wf(),
        match relevant_kind(kind) {
            None => final(out)@ == old(out)@ && final(tokens).view() == old(tokens).view(),
            Some(k) => {
                let rep = report_paths(
                    old(tokens).view(),
                    paths@.map_values(|s: String| s@),
                    now,
                );
                &&& final(tokens).view() == rep.0
                &&& final(out)@.len() == old(out)@.len() + rep.1.len()
                &&& forall|j: int|
                    0 <= j < old(out)@.len() ==> (#[trigger] final(out)@[j]) == old(out)@[j]
                &&& forall|j: int|
                    0 <= j < rep.1.len() ==> (#[trigger] final(out)@[old(out)@.len() + j]).path@
                        == rep.1[j] && final(out)@[old(out)@.len() + j].kind == k
            },
        },
{
    let kind = match classify(kind) {
        Some(k) => k,
        None => return ,
    };
    let ghost pv = paths@.map_values(|s: String| s@);
    let ghost m0 = tokens.view();
    let ghost n0 = out@.len();
    let mut i: usize = 0;
    assert(pv.take(0) =~= Seq::<Seq<char>>::empty());
    while i < paths.len()
        invariant
            i <= paths@.len(),
            pv == paths@.map_values(|s: String| s@),
            tokens.wf(),
            m0 == old(tokens).view(),
            n0 == old(out)@.len(),
            tokens.view() == report_paths(m0, pv.take(i as int), now).0,
            out@.len() == n0 + report_paths(m0, pv.take(i as int), now).1.len(),
            forall|j: int| 0 <= j < n0 ==> (#[trigger] out@[j]) == old(out)@[j],
            forall|j: int|
                0 <= j < report_paths(m0, pv.take(i as int), now).1.len() ==> (#[trigger] out@[n0
                    + j]).path@ == report_paths(m0, pv.take(i as int), now).1[j] && out@[n0
                    + j].kind == kind,
        decreases paths@.len() - i,
    {
        let ghost prev = report_paths(m0, pv.take(i as int), now);
        assert(pv.take(i + 1).drop_last() =~= pv.take(i as int));
        assert(pv.take(i + 1).last() == paths@[i as int]@);
        let ghost before = out@;
        if !tokens.consume(paths[i].as_str(), now) {
            out.push(WatchEvent { path: paths[i].clone(), kind });
            assert forall|j: int|
                0 <= j < prev.1.len() + 1 implies (#[trigger] out@[n0 + j]).path@ == prev.1.push(
                paths@[i as int]@,
            )[j] && out@[n0 + j].kind == kind by {
                if j < prev.1.len() {
                    assert(out@[n0 + j] == before[n0 + j]);
                }
            }
        }
        i = i + 1;
    }
    assert(pv.take(i as int) =~= pv);
}

} // verus!
