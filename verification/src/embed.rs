//! The semantic index's bookkeeping: job priorities, chunk reuse between
//! re-embeds, result snippets and per-file deduplication of hits.
//!
//! Vectors and similarity scores are floating point and live outside the
//! library; what is decided here is which chunks need a fresh embedding,
//! which job runs next, and which ranked hits are shown.

use vstd::prelude::*;
use crate::chunker::Chunk;
use crate::markdown::ParsedNote;
use crate::order::chars_equal;
use crate::text::{chars_of, slice_chars, string_from_chars, trim, trim_bounds};

verus! {

/// A deterministic embedder for tests: its vectors are derived from a
/// SHA-256 of the text.
#[derive(Debug, Default, Clone)]
pub struct FakeEmbedder;

impl FakeEmbedder {
    pub fn new() -> (r: Self)
        ensures
            r == FakeEmbedder,
    {
        FakeEmbedder
    }
}

/// Job priority: live edits run before vault-open backlog.
#[derive(Debug, Clone, Copy, PartialEq, Eq, PartialOrd, Ord)]
pub enum Priority {
    Normal,
    High,
}

/// A request to re-chunk and re-embed one file.
#[derive(Debug)]
pub struct EmbedJob {
    pub file_id: String,
    pub title: String,
    pub note: ParsedNote,
    pub priority: Priority,
}

/// Progress of the background embedder.
#[derive(Debug, Clone, Copy)]
pub struct EmbedProgress {
    pub done: u32,
    pub total: u32,
}

/// A stored chunk's metadata, as search results show it.
#[derive(Debug, Clone)]
pub struct ChunkMetadata {
    pub id: String,
    pub file_id: String,
    pub file_path: String,
    pub heading_path: Option<String>,
    pub heading_text: Option<String>,
    pub heading_level: Option<u8>,
    pub content: String,
}

/// Progress reporting and cancellation for a long graph computation.
pub trait KnnProgress {
    fn report(&mut self, done: u32, total: u32);

    fn is_cancelled(&self) -> bool;
}

/// No progress, never cancelled.
pub struct NoopProgress;

impl KnnProgress for NoopProgress {
    fn report(&mut self, done: u32, total: u32) {
    }

    fn is_cancelled(&self) -> (r: bool)
        ensures
            !r,
    {
        false
    }
}

// ---------------------------------------------------------------------------
// Mutual nearest neighbours
// ---------------------------------------------------------------------------

/// The neighbour lists as index sequences.
pub open spec fn index_lists(top: Seq<Vec<usize>>) -> Seq<Seq<usize>> {
    top.map_values(|v: Vec<usize>| v@)
}

/// Notes `i < j` are among each other's nearest neighbours: each is in the
/// other's list.
pub open spec fn mutual(lists: Seq<Seq<usize>>, i: int, j: int) -> bool {
    0 <= i < j < lists.len() && lists[i].contains(j as usize) && lists[j].contains(i as usize)
}

/// `a` comes before `b`: by first index, then by second.
pub open spec fn pair_before(a: (usize, usize), b: (usize, usize)) -> bool {
    a.0 < b.0 || (a.0 == b.0 && a.1 < b.1)
}

fn contains_index(v: &Vec<usize>, x: usize) -> (b: bool)
    ensures
        b == v@.contains(x),
{
    let mut k: usize = 0;
    while k < v.len()
        invariant
            k <= v@.len(),
            forall|m: int| 0 <= m < k ==> v@[m] != x,
        decreases v@.len() - k,
    {
        if v[k] == x {
            return true;
        }
        k = k + 1;
    }
    false
}

/// The mutual pairs of the neighbour lists `top` (note `i`'s nearest
/// notes by index), each pair once with the smaller index first, in order
/// of the first index and then the second.
pub fn mutual_pairs(top: &Vec<Vec<usize>>) -> (r: Vec<(usize, usize)>)
    ensures
        forall|a: int, b: int| 0 <= a < b < r@.len() ==> pair_before(#[trigger] r@[a], #[trigger] r@[b]),
        forall|i: usize, j: usize|
            #![trigger mutual(index_lists(top@), i as int, j as int)]
            mutual(index_lists(top@), i as int, j as int) <==> r@.contains((i, j)),
        forall|k: int| 0 <= k < r@.len() ==> mutual(index_lists(top@), (#[trigger] r@[k]).0 as int, r@[k].1 as int),
{
    let ghost lists = index_lists(top@);
    let n = top.len();
    let mut out: Vec<(usize, usize)> = Vec::new();
    let mut i: usize = 0;
    while i < n
        invariant
            n == top@.len(),
            lists == index_lists(top@),
            i <= n,
            forall|a: int, b: int| 0 <= a < b < out@.len() ==> pair_before(#[trigger] out@[a], #[trigger] out@[b]),
            forall|k: int| 0 <= k < out@.len() ==> (#[trigger] out@[k]).0 < i,
            forall|k: int| 0 <= k < out@.len() ==> mutual(lists, (#[trigger] out@[k]).0 as int, out@[k].1 as int),
            forall|a: int, b: int| 0 <= a < i && mutual(lists, a, b) ==> out@.contains((a as usize, b as usize)),
        decreases n - i,
    {
        let mut j: usize = i + 1;
        while j < n
            invariant
                n == top@.len(),
                lists == index_lists(top@),
                i < n,
                i + 1 <= j <= n,
                forall|a: int, b: int| 0 <= a < b < out@.len() ==> pair_before(#[trigger] out@[a], #[trigger] out@[b]),
                forall|k: int| 0 <= k < out@.len() ==> pair_before(#[trigger] out@[k], (i, j)),
                forall|k: int| 0 <= k < out@.len() ==> (#[trigger] out@[k]).0 <= i,
                forall|k: int| 0 <= k < out@.len() ==> mutual(lists, (#[trigger] out@[k]).0 as int, out@[k].1 as int),
                forall|a: int, b: int| 0 <= a < i && mutual(lists, a, b) ==> out@.contains((a as usize, b as usize)),
                forall|b: int| i < b < j && mutual(lists, i as int, b) ==> out@.contains((i, b as usize)),
            decreases n - j,
        {
            assert(lists[i as int] == top@[i as int]@);
            assert(lists[j as int] == top@[j as int]@);
            if contains_index(&top[i], j) && contains_index(&top[j], i) {
                let ghost before = out@;
                out.push((i, j));
                assert forall|a: int, b: int| 0 <= a < i && mutual(lists, a, b) implies out@.contains((a as usize, b as usize)) by {
                    let k = choose|k: int| 0 <= k < before.len() && before[k] == (a as usize, b as usize);
                    assert(out@[k] == before[k]);
                }
                assert forall|b: int| i < b < j + 1 && mutual(lists, i as int, b) implies out@.contains((i, b as usize)) by {
                    if b < j {
                        let k = choose|k: int| 0 <= k < before.len() && before[k] == (i, b as usize);
                        assert(out@[k] == before[k]);
                    } else {
                        assert(out@[before.len() as int] == (i, j));
                    }
                }
            } else {
                assert(!mutual(lists, i as int, j as int));
            }
            j = j + 1;
        }
        i = i + 1;
    }
    assert forall|a: usize, b: usize|
        #![trigger mutual(index_lists(top@), a as int, b as int)]
        mutual(index_lists(top@), a as int, b as int) <==> out@.contains((a, b)) by {
        if out@.contains((a, b)) {
            let k = choose|k: int| 0 <= k < out@.len() && out@[k] == (a, b);
            assert(mutual(lists, out@[k].0 as int, out@[k].1 as int));
        }
        if mutual(lists, a as int, b as int) {
            assert(out@.contains((a, b)));
        }
    }
    out
}

/// How many neighbours the mutual kNN graph keeps per note: the request,
/// 4 when absent, clamped to `1..=16`.
pub fn knn_neighbour_count(k: Option<u32>) -> (r: u32)
    ensures
        r == (match k {
            Some(v) => if v < 1 {
                1
            } else if v > 16 {
                16
            } else {
                v
            },
            None => 4,
        }),
{
    match k {
        Some(v) => if v < 1 {
            1
        } else if v > 16 {
            16
        } else {
            v
        },
        None => 4,
    }
}

// ---------------------------------------------------------------------------
// Snippets
// ---------------------------------------------------------------------------

/// Longest snippet shown, in characters, before the ellipsis.
pub const SNIPPET_MAX: usize = 240;

/// A result snippet: the trimmed content, cut to [`SNIPPET_MAX`]
/// characters followed by `…` when it is longer.
pub open spec fn snippet_of(content: Seq<char>) -> Seq<char> {
    let t = trim(content);
    if t.len() <= SNIPPET_MAX {
        t
    } else {
        t.take(SNIPPET_MAX as int).push('\u{2026}')
    }
}

pub fn snippet_from(content: &str) -> (r: String)
    ensures
        r@ == snippet_of(content@),
{
    let v = chars_of(content);
    let (a, b) = trim_bounds(&v, 0, v.len());
    assert(v@.subrange(0, v@.len() as int) =~= v@);
    if b - a <= SNIPPET_MAX {
        let out = slice_chars(&v, a, b);
        return string_from_chars(out.as_slice());
    }
    let mut out = slice_chars(&v, a, a + SNIPPET_MAX);
    out.push('\u{2026}');
    assert(out@ =~= trim(v@).take(SNIPPET_MAX as int).push('\u{2026}'));
    string_from_chars(out.as_slice())
}

// ---------------------------------------------------------------------------
// Chunk reuse
// ---------------------------------------------------------------------------

/// A stored chunk as reuse planning sees it: its position and hash.
pub type StoredChunkKey = (i64, Seq<char>);

/// The first stored chunk at position `idx` with hash `hash`, if any.
pub open spec fn reusable_at(old: Seq<StoredChunkKey>, idx: int, hash: Seq<char>) -> Option<int>
    decreases old.len(),
{
    if old.len() == 0 {
        None
    } else {
        match reusable_at(old.drop_last(), idx, hash) {
            Some(k) => Some(k),
            None => if old.last().0 == idx && old.last().1 == hash {
                Some(old.len() - 1)
            } else {
                None
            },
        }
    }
}

pub open spec fn stored_keys(old: Seq<(i64, String)>) -> Seq<StoredChunkKey> {
    old.map_values(|p: (i64, String)| (p.0, p.1@))
}

/// For each new chunk, the stored chunk whose embedding can be kept: the
/// first stored chunk at the same position with the same content hash.
/// Chunks without one need a fresh embedding.
pub fn plan_chunk_reuse(chunks: &Vec<Chunk>, old: &Vec<(i64, String)>) -> (r: Vec<Option<usize>>)
    ensures
        r@.len() == chunks@.len(),
        forall|i: int|
            0 <= i < r@.len() ==> match (#[trigger] r@[i], reusable_at(
                stored_keys(old@),
                i,
                chunks@[i].content_hash@,
            )) {
                (Some(k), Some(k2)) => k as int == k2,
                (None, None) => true,
                _ => false,
            },
{
    let ghost keys = stored_keys(old@);
    let mut out: Vec<Option<usize>> = Vec::new();
    let mut i: usize = 0;
    while i < chunks.len()
        invariant
            i <= chunks@.len(),
            keys == stored_keys(old@),
            out@.len() == i,
            forall|m: int|
                0 <= m < i ==> match (#[trigger] out@[m], reusable_at(
                    keys,
                    m,
                    chunks@[m].content_hash@,
                )) {
                    (Some(k), Some(k2)) => k as int == k2,
                    (None, None) => true,
                    _ => false,
                },
        decreases chunks@.len() - i,
    {
        let hash = chars_of(chunks[i].content_hash.as_str());
        let mut found: Option<usize> = None;
        let mut k: usize = 0;
        assert(keys.take(0) =~= Seq::<StoredChunkKey>::empty());
        while k < old.len()
            invariant
                k <= old@.len(),
                keys == stored_keys(old@),
                hash@ == chunks@[i as int].content_hash@,
                match (found, reusable_at(keys.take(k as int), i as int, hash@)) {
                    (Some(f), Some(f2)) => f as int == f2,
                    (None, None) => true,
                    _ => false,
                },
            decreases old@.len() - k,
        {
            assert(keys.take(k + 1).drop_last() =~= keys.take(k as int));
            assert(keys.take(k + 1).last() == keys[k as int]);
            if found.is_none() {
                let pos = old[k].0;
                if pos >= 0 && pos as u128 == i as u128 && chars_equal(
                    &chars_of(old[k].1.as_str()),
                    &hash,
                ) {
                    found = Some(k);
                }
            }
            k = k + 1;
        }
        assert(keys.take(k as int) =~= keys);
        out.push(found);
        i = i + 1;
    }
    out
}

/// The stored keys of a note's own chunks: chunk `i` stored at position
/// `i` with its hash.
pub open spec fn own_keys(hashes: Seq<Seq<char>>) -> Seq<StoredChunkKey> {
    Seq::new(hashes.len(), |i: int| (i as i64, hashes[i]))
}

proof fn lemma_own_prefix(hashes: Seq<Seq<char>>, i: int, k: int)
    requires
        0 <= i < hashes.len() <= i64::MAX,
        0 <= k <= hashes.len(),
    ensures
        reusable_at(own_keys(hashes).take(k), i, hashes[i]) == (if k > i {
            Some(i)
        } else {
            None::<int>
        }),
    decreases k,
{
    let keys = own_keys(hashes).take(k);
    if k > 0 {
        lemma_own_prefix(hashes, i, k - 1);
        assert(keys.drop_last() =~= own_keys(hashes).take(k - 1));
        assert(keys.last() == (((k - 1) as i64), hashes[k - 1]));
    } else {
        assert(keys.len() == 0);
    }
}

/// Re-processing an unchanged note embeds nothing: when the stored chunks
/// are the note's own (chunk `i` at position `i` with its hash), every
/// chunk finds its own stored row to reuse, so no chunk needs a fresh
/// embedding.
pub proof fn unchanged_note_reuses_every_chunk(hashes: Seq<Seq<char>>)
    requires
        hashes.len() <= i64::MAX,
    ensures
        forall|i: int|
            0 <= i < hashes.len() ==> #[trigger] reusable_at(own_keys(hashes), i, hashes[i])
                == Some(i),
{
    assert forall|i: int| 0 <= i < hashes.len() implies #[trigger] reusable_at(
        own_keys(hashes),
        i,
        hashes[i],
    ) == Some(i) by {
        lemma_own_prefix(hashes, i, hashes.len() as int);
        assert(own_keys(hashes).take(hashes.len() as int) =~= own_keys(hashes));
    }
}

// ---------------------------------------------------------------------------
// Job order
// ---------------------------------------------------------------------------

/// The jobs of `s` with priority `p`, in order.
pub open spec fn with_priority(s: Seq<EmbedJob>, p: Priority) -> Seq<EmbedJob>
    decreases s.len(),
{
    if s.len() == 0 {
        Seq::empty()
    } else if s.last().priority == p {
        with_priority(s.drop_last(), p).push(s.last())
    } else {
        with_priority(s.drop_last(), p)
    }
}

/// Pending jobs in the order they run: every high-priority job before
/// every normal one, each group in submission order.
pub open spec fn run_order(s: Seq<EmbedJob>) -> Seq<EmbedJob> {
    with_priority(s, Priority::High) + with_priority(s, Priority::Normal)
}

proof fn lemma_run_order_len(s: Seq<EmbedJob>)
    ensures
        run_order(s).len() == s.len(),
    decreases s.len(),
{
    if s.len() > 0 {
        lemma_run_order_len(s.drop_last());
    }
}

/// Takes the job that runs next — the earliest high-priority job, else the
/// earliest job — and leaves the rest pending in run order.
pub fn take_next_job(pending: &mut Vec<EmbedJob>) -> (r: EmbedJob)
    requires
        old(pending)@.len() > 0,
    ensures
        r == run_order(old(pending)@)[0],
        final(pending)@ == run_order(old(pending)@).drop_first(),
{
    let ghost s = old(pending)@;
    let mut high: Vec<EmbedJob> = Vec::new();
    let mut normal: Vec<EmbedJob> = Vec::new();
    let mut rest: Vec<EmbedJob> = Vec::new();
    // Move the jobs out back to front, then restore submission order.
    while pending.len() > 0
        invariant
            pending@.len() + rest@.len() == s.len(),
            pending@ == s.take(pending@.len() as int),
            forall|k: int| 0 <= k < rest@.len() ==> rest@[k] == s[s.len() - 1 - k],
        decreases pending@.len(),
    {
        let ghost before = pending@;
        let job = pending.pop().unwrap();
        assert(pending@ =~= s.take(pending@.len() as int));
        assert(job == s[pending@.len() as int]);
        rest.push(job);
    }
    let n = rest.len();
    let mut k: usize = 0;
    assert(s.take(0) =~= Seq::<EmbedJob>::empty());
    while rest.len() > 0
        invariant
            rest@.len() + k == n,
            n == s.len(),
            forall|m: int| 0 <= m < rest@.len() ==> rest@[m] == s[s.len() - 1 - m],
            high@ == with_priority(s.take(k as int), Priority::High),
            normal@ == with_priority(s.take(k as int), Priority::Normal),
        decreases rest@.len(),
    {
        let job = rest.pop().unwrap();
        assert(job == s[k as int]);
        assert(s.take(k + 1).drop_last() =~= s.take(k as int));
        assert(s.take(k + 1).last() == s[k as int]);
        match job.priority {
            Priority::High => high.push(job),
            Priority::Normal => normal.push(job),
        }
        k = k + 1;
    }
    assert(s.take(k as int) =~= s);
    proof {
        lemma_run_order_len(s);
    }
    high.append(&mut normal);
    assert(high@ == run_order(s));
    let first = high.remove(0);
    *pending = high;
    first
}

/// Every job of `s` has priority `p`.
pub open spec fn all_priority(s: Seq<EmbedJob>, p: Priority) -> bool {
    forall|k: int| 0 <= k < s.len() ==> (#[trigger] s[k]).priority == p
}

proof fn lemma_with_priority_concat(a: Seq<EmbedJob>, b: Seq<EmbedJob>, p: Priority)
    ensures
        with_priority(a + b, p) == with_priority(a, p) + with_priority(b, p),
    decreases b.len(),
{
    if b.len() == 0 {
        assert(a + b =~= a);
        assert(with_priority(a, p) + with_priority(b, p) =~= with_priority(a, p));
    } else {
        lemma_with_priority_concat(a, b.drop_last(), p);
        assert((a + b).drop_last() =~= a + b.drop_last());
        assert((a + b).last() == b.last());
        assert((with_priority(a, p) + with_priority(b.drop_last(), p)).push(b.last())
            =~= with_priority(a, p) + with_priority(b.drop_last(), p).push(b.last()));
    }
}

proof fn lemma_with_priority_all(s: Seq<EmbedJob>, p: Priority, q: Priority)
    requires
        all_priority(s, p),
    ensures
        with_priority(s, q) == (if p == q {
            s
        } else {
            Seq::<EmbedJob>::empty()
        }),
    decreases s.len(),
{
    if s.len() > 0 {
        assert(all_priority(s.drop_last(), p)) by {
            assert forall|k: int| 0 <= k < s.drop_last().len() implies (#[trigger] s.drop_last()[
                k]).priority == p by {
                assert(s.drop_last()[k] == s[k]);
            }
        }
        lemma_with_priority_all(s.drop_last(), p, q);
        assert(s.last() == s[s.len() - 1]);
        if p == q {
            assert(s.drop_last().push(s.last()) =~= s);
        }
    }
}

proof fn lemma_with_priority_is(s: Seq<EmbedJob>, p: Priority)
    ensures
        all_priority(with_priority(s, p), p),
    decreases s.len(),
{
    if s.len() > 0 {
        lemma_with_priority_is(s.drop_last(), p);
        let w = with_priority(s.drop_last(), p);
        if s.last().priority == p {
            assert forall|k: int| 0 <= k < w.push(s.last()).len() implies (#[trigger] w.push(
                s.last(),
            )[k]).priority == p by {
                if k < w.len() {
                    assert(w.push(s.last())[k] == w[k]);
                }
            }
        }
    }
}

/// High-priority jobs followed by normal ones are already in run order.
proof fn lemma_run_order_of_split(h: Seq<EmbedJob>, n: Seq<EmbedJob>)
    requires
        all_priority(h, Priority::High),
        all_priority(n, Priority::Normal),
    ensures
        run_order(h + n) == h + n,
{
    lemma_with_priority_concat(h, n, Priority::High);
    lemma_with_priority_concat(h, n, Priority::Normal);
    lemma_with_priority_all(h, Priority::High, Priority::High);
    lemma_with_priority_all(h, Priority::High, Priority::Normal);
    lemma_with_priority_all(n, Priority::Normal, Priority::High);
    lemma_with_priority_all(n, Priority::Normal, Priority::Normal);
    assert(h + Seq::<EmbedJob>::empty() =~= h);
    assert(Seq::<EmbedJob>::empty() + n =~= n);
}

/// What stays pending after `k` jobs are taken from `s`, with nothing new
/// received in between.
pub open spec fn pending_after(s: Seq<EmbedJob>, k: nat) -> Seq<EmbedJob>
    decreases k,
{
    if k == 0 {
        s
    } else {
        run_order(pending_after(s, (k - 1) as nat)).drop_first()
    }
}

proof fn lemma_pending_after(s: Seq<EmbedJob>, k: nat)
    requires
        1 <= k <= s.len(),
    ensures
        pending_after(s, k) == run_order(s).skip(k as int),
        run_order(pending_after(s, k)) == pending_after(s, k),
    decreases k,
{
    let h = with_priority(s, Priority::High);
    let n = with_priority(s, Priority::Normal);
    lemma_with_priority_is(s, Priority::High);
    lemma_with_priority_is(s, Priority::Normal);
    lemma_run_order_len(s);
    if k > 1 {
        lemma_pending_after(s, (k - 1) as nat);
        assert(pending_after(s, k) == run_order(pending_after(s, (k - 1) as nat)).drop_first());
        assert(run_order(s).skip(k - 1).drop_first() =~= run_order(s).skip(k as int));
    } else {
        assert(pending_after(s, 0) == s);
        assert(pending_after(s, 1) == run_order(pending_after(s, 0)).drop_first());
        assert(run_order(s).drop_first() =~= run_order(s).skip(1));
    }
    // The rest of a run order is still high-priority jobs then normal ones.
    let rest = run_order(s).skip(k as int);
    if k <= h.len() {
        let h2 = h.skip(k as int);
        assert(all_priority(h2, Priority::High)) by {
            assert forall|i: int| 0 <= i < h2.len() implies (#[trigger] h2[i]).priority
                == Priority::High by {
                assert(h2[i] == h[i + k]);
            }
        }
        assert(rest =~= h2 + n);
        lemma_run_order_of_split(h2, n);
    } else {
        let n2 = n.skip(k - h.len());
        assert(all_priority(n2, Priority::Normal)) by {
            assert forall|i: int| 0 <= i < n2.len() implies (#[trigger] n2[i]).priority
                == Priority::Normal by {
                assert(n2[i] == n[i + k - h.len()]);
            }
        }
        assert(rest =~= Seq::<EmbedJob>::empty() + n2);
        lemma_run_order_of_split(Seq::empty(), n2);
    }
}

/// The worker runs jobs in run order: taking jobs one after another from
/// a queue `s` that receives nothing new in between, the `k`-th job taken
/// is the `k`-th job of `run_order(s)` — every high-priority job before
/// every normal one, each group in submission order — and `k` jobs fewer
/// stay pending.
pub proof fn jobs_taken_in_run_order(s: Seq<EmbedJob>)
    ensures
        forall|k: nat|
            #![trigger pending_after(s, k)]
            k < s.len() ==> pending_after(s, k).len() == s.len() - k && run_order(
                pending_after(s, k),
            )[0] == run_order(s)[k as int],
{
    lemma_run_order_len(s);
    assert forall|k: nat|
        #![trigger pending_after(s, k)]
        k < s.len() implies pending_after(s, k).len() == s.len() - k && run_order(
            pending_after(s, k),
        )[0] == run_order(s)[k as int] by {
        if k > 0 {
            lemma_pending_after(s, k);
            assert(run_order(s).skip(k as int)[0] == run_order(s)[k as int]);
        } else {
            assert(pending_after(s, k) == s);
        }
    }
}

/// The worker's own state: the jobs received and not yet taken, and how
/// many jobs it has finished.
pub struct EmbedWorker {
    pending: Vec<EmbedJob>,
    done: u32,
}

impl EmbedWorker {
    /// The jobs received and not yet taken, in the order they are held.
    pub closed spec fn pending_jobs(&self) -> Seq<EmbedJob> {
        self.pending@
    }

    /// How many jobs have been finished, successfully or not.
    pub closed spec fn finished(&self) -> u32 {
        self.done
    }

    pub fn new() -> (w: Self)
        ensures
            w.pending_jobs() == Seq::<EmbedJob>::empty(),
            w.finished() == 0,
    {
        EmbedWorker { pending: Vec::new(), done: 0 }
    }

    /// Whether a job is waiting.
    pub fn has_pending(&self) -> (b: bool)
        ensures
            b == (self.pending_jobs().len() > 0),
    {
        self.pending.len() > 0
    }

    /// How many jobs have been finished.
    pub fn finished_count(&self) -> (n: u32)
        ensures
            n == self.finished(),
    {
        self.done
    }

    /// Takes in a submitted job.
    pub fn receive(&mut self, job: EmbedJob)
        ensures
            final(self).pending_jobs() == old(self).pending_jobs().push(job),
            final(self).finished() == old(self).finished(),
    {
        self.pending.push(job);
    }

    /// Takes the job that runs next: the earliest high-priority job, else
    /// the earliest job.
    pub fn next_job(&mut self) -> (r: EmbedJob)
        requires
            old(self).pending_jobs().len() > 0,
        ensures
            r == run_order(old(self).pending_jobs())[0],
            final(self).pending_jobs() == run_order(old(self).pending_jobs()).drop_first(),
            final(self).finished() == old(self).finished(),
    {
        take_next_job(&mut self.pending)
    }

    /// Records that a job was finished, whether it succeeded or failed:
    /// the count grows by exactly one, and the progress to report is the
    /// new count out of `total` submitted.
    pub fn job_finished(&mut self, total: u32) -> (p: EmbedProgress)
        requires
            old(self).finished() < u32::MAX,
        ensures
            final(self).finished() == old(self).finished() + 1,
            final(self).pending_jobs() == old(self).pending_jobs(),
            p.done == final(self).finished(),
            p.total == total,
    {
        self.done = self.done + 1;
        EmbedProgress { done: self.done, total }
    }
}

// ---------------------------------------------------------------------------
// Related notes
// ---------------------------------------------------------------------------

/// Positions of the ranked hits that are shown: the first hit of each file,
/// in rank order, at most `limit` of them (from position `i`, with the
/// files in `seen` already shown).
pub open spec fn first_per_file_from(
    files: Seq<Seq<char>>,
    i: int,
    seen: Seq<Seq<char>>,
    limit: int,
) -> Seq<int>
    decreases files.len() - i,
{
    if i < 0 || i >= files.len() || seen.len() >= limit {
        Seq::empty()
    } else if seen.contains(files[i]) {
        first_per_file_from(files, i + 1, seen, limit)
    } else {
        seq![i] + first_per_file_from(files, i + 1, seen.push(files[i]), limit)
    }
}

/// Keeps the highest-ranked hit per file: given the file of each hit in
/// rank order, the positions of the hits to show.
pub fn first_hit_per_file(files: &Vec<String>, limit: usize) -> (r: Vec<usize>)
    ensures
        r@.map_values(|x: usize| x as int) == first_per_file_from(
            files@.map_values(|s: String| s@),
            0,
            Seq::empty(),
            limit as int,
        ),
{
    let ghost fv = files@.map_values(|s: String| s@);
    let mut out: Vec<usize> = Vec::new();
    let mut seen: Vec<Vec<char>> = Vec::new();
    let mut i: usize = 0;
    assert(out@.map_values(|x: usize| x as int) =~= Seq::<int>::empty());
    assert(seen@.map_values(|c: Vec<char>| c@) =~= Seq::<Seq<char>>::empty());
    while i < files.len() && seen.len() < limit
        invariant
            i <= files@.len(),
            fv == files@.map_values(|s: String| s@),
            seen@.len() == out@.len(),
            out@.map_values(|x: usize| x as int) + first_per_file_from(
                fv,
                i as int,
                seen@.map_values(|c: Vec<char>| c@),
                limit as int,
            ) == first_per_file_from(fv, 0, Seq::empty(), limit as int),
        decreases files@.len() - i,
    {
        let f = chars_of(files[i].as_str());
        let ghost sv = seen@.map_values(|c: Vec<char>| c@);
        let mut dup = false;
        let mut k: usize = 0;
        while k < seen.len()
            invariant
                k <= seen@.len(),
                sv == seen@.map_values(|c: Vec<char>| c@),
                dup == exists|m: int| 0 <= m < k && sv[m] == f@,
            decreases seen@.len() - k,
        {
            assert(sv[k as int] == seen@[k as int]@);
            if chars_equal(&seen[k], &f) {
                dup = true;
            }
            k = k + 1;
        }
        assert(f@ == fv[i as int]);
        let ghost before = out@.map_values(|x: usize| x as int);
        if !dup {
            out.push(i);
            seen.push(f);
            assert(out@.map_values(|x: usize| x as int) =~= before.push(i as int));
            assert(seen@.map_values(|c: Vec<char>| c@) =~= sv.push(fv[i as int]));
            assert(before + (seq![i as int] + first_per_file_from(
                fv,
                i + 1,
                sv.push(fv[i as int]),
                limit as int,
            )) =~= before.push(i as int) + first_per_file_from(
                fv,
                i + 1,
                sv.push(fv[i as int]),
                limit as int,
            ));
        } else {
            assert(sv.contains(fv[i as int]));
        }
        i = i + 1;
    }
    assert(first_per_file_from(fv, i as int, seen@.map_values(|c: Vec<char>| c@), limit as int)
        =~= Seq::<int>::empty());
    assert(out@.map_values(|x: usize| x as int) + Seq::<int>::empty() =~= out@.map_values(
        |x: usize| x as int,
    ));
    out
}

} // verus!
