//! Index records, errors, vault statistics and the unresolved-link report.
//!
//! The index itself lives in SQLite; this module holds the plain records
//! its queries return and the grouping and ordering of unresolved links.

use vstd::prelude::*;
use crate::order::{chars_equal, lex_less, lex_lt};
use crate::resolve::{LinkResolution, NoteId};
use crate::text::{chars_of, lowercase, to_lowercase};

verus! {

#[verifier::external_type_specification]
#[verifier::external_body]
pub struct ExSqliteError(rusqlite::Error);

#[verifier::external_type_specification]
#[verifier::external_body]
pub struct ExIoError(std::io::Error);

#[verifier::external_type_specification]
#[verifier::external_body]
pub struct ExUuidError(uuid::Error);

/// Errors of the SQLite index.
#[derive(Debug)]
pub enum IndexError {
    Sqlite(rusqlite::Error),
    Io(std::io::Error),
    Uuid(uuid::Error),
}

/// Errors of a search.
#[derive(Debug)]
pub enum SearchError {
    Index(IndexError),
}

/// A link as stored in the index.
#[derive(Debug, Clone)]
pub struct LinkRecord {
    pub id: i64,
    pub source_id: NoteId,
    pub target: String,
    pub fragment: Option<String>,
    pub alias: Option<String>,
    pub resolved_target_id: Option<NoteId>,
}

/// A heading as stored in the index.
#[derive(Debug, Clone)]
pub struct HeadingRecord {
    pub id: i64,
    pub file_id: NoteId,
    pub level: u8,
    pub text: String,
}

/// A tag as stored in the index.
#[derive(Debug, Clone)]
pub struct TagRecord {
    pub id: i64,
    pub file_id: NoteId,
    pub name: String,
}

/// A task as stored in the index.
#[derive(Debug, Clone)]
pub struct TaskRecord {
    pub id: i64,
    pub file_id: NoteId,
    pub text: String,
    pub done: bool,
}

/// Aggregate counts for the vault, shown in the status bar.
#[derive(Debug, Clone, Copy, PartialEq, Eq)]
pub struct VaultStats {
    pub note_count: u32,
    pub link_count: u32,
    pub unresolved_link_count: u32,
}

/// Whether an unresolved target matches no note or several.
#[derive(Debug, Clone, Copy, PartialEq, Eq)]
pub enum UnresolvedTargetKind {
    Unresolved,
    Ambiguous,
}

/// One unresolved target, grouped case-insensitively.
#[derive(Debug, Clone)]
pub struct UnresolvedTargetRow {
    pub target: String,
    pub kind: UnresolvedTargetKind,
    pub reference_count: usize,
    pub sample_sources: Vec<String>,
    pub has_more_sources: bool,
}

/// The unresolved-link report: rows after the limit, and how many groups
/// there were before it.
#[derive(Debug, Clone)]
pub struct UnresolvedReport {
    pub rows: Vec<UnresolvedTargetRow>,
    pub total_count: usize,
}

/// One link that points at an unresolved target.
#[derive(Debug, Clone, PartialEq, Eq)]
pub struct UnresolvedSourceRef {
    pub source_path: String,
    pub source_title: String,
    pub target: String,
    pub fragment: Option<String>,
    pub alias: Option<String>,
}

/// How many sample sources a row keeps.
pub const SAMPLE_SOURCE_LIMIT: usize = 3;

/// A row as plain values: target, kind, reference count, samples, whether
/// there are more sources.
pub type RowView = (Seq<char>, UnresolvedTargetKind, nat, Seq<Seq<char>>, bool);

impl UnresolvedTargetRow {
    pub open spec fn view5(self) -> RowView {
        (
            self.target@,
            self.kind,
            self.reference_count as nat,
            self.sample_sources@.map_values(|s: String| s@),
            self.has_more_sources,
        )
    }
}

pub open spec fn row_views(v: Seq<UnresolvedTargetRow>) -> Seq<RowView> {
    v.map_values(|r: UnresolvedTargetRow| r.view5())
}

/// First group with key `key`, or `-1`.
pub open spec fn group_index(keys: Seq<Seq<char>>, key: Seq<char>) -> int
    decreases keys.len(),
{
    if keys.len() == 0 {
        -1
    } else if group_index(keys.drop_last(), key) >= 0 {
        group_index(keys.drop_last(), key)
    } else if keys.last() == key {
        keys.len() - 1
    } else {
        -1
    }
}

/// Groups after one more unresolved link `(target, source)`: a known
/// target (compared by lower-case form) counts one more reference and
/// keeps the source as a sample while it has fewer than
/// [`SAMPLE_SOURCE_LIMIT`]; a new target opens a group with this link.
pub open spec fn group_step(
    groups: (Seq<Seq<char>>, Seq<RowView>),
    target: Seq<char>,
    source: Seq<char>,
) -> (Seq<Seq<char>>, Seq<RowView>) {
    let key = lowercase(target);
    let i = group_index(groups.0, key);
    if i >= 0 {
        let r = groups.1[i];
        let updated = if r.3.len() < SAMPLE_SOURCE_LIMIT {
            (r.0, r.1, r.2 + 1, r.3.push(source), r.4)
        } else {
            (r.0, r.1, r.2 + 1, r.3, true)
        };
        (groups.0, groups.1.update(i, updated))
    } else {
        (
            groups.0.push(key),
            groups.1.push(
                (target, UnresolvedTargetKind::Unresolved, 1nat, seq![source], false),
            ),
        )
    }
}

/// The groups of a list of unresolved links, in order of first appearance.
pub open spec fn grouped(links: Seq<(Seq<char>, Seq<char>)>) -> (Seq<Seq<char>>, Seq<RowView>)
    decreases links.len(),
{
    if links.len() == 0 {
        (Seq::empty(), Seq::empty())
    } else {
        group_step(grouped(links.drop_last()), links.last().0, links.last().1)
    }
}

proof fn lemma_grouped_len(links: Seq<(Seq<char>, Seq<char>)>)
    ensures
        grouped(links).0.len() == grouped(links).1.len(),
        grouped(links).1.len() <= links.len(),
    decreases links.len(),
{
    if links.len() > 0 {
        lemma_grouped_len(links.drop_last());
        let g = grouped(links.drop_last());
        lemma_group_index(g.0, lowercase(links.last().0));
    }
}

proof fn lemma_group_index(keys: Seq<Seq<char>>, key: Seq<char>)
    ensures
        -1 <= group_index(keys, key) < keys.len(),
        group_index(keys, key) >= 0 ==> keys[group_index(keys, key)] == key,
        group_index(keys, key) < 0 ==> forall|k: int| 0 <= k < keys.len() ==> keys[k] != key,
    decreases keys.len(),
{
    if keys.len() > 0 {
        lemma_group_index(keys.drop_last(), key);
        if group_index(keys.drop_last(), key) < 0 {
            assert forall|k: int| 0 <= k < keys.len() - 1 implies keys[k] != key by {
                assert(keys[k] == keys.drop_last()[k]);
            }
        } else {
            assert(keys[group_index(keys, key)] == keys.drop_last()[group_index(keys, key)]);
        }
    }
}

proof fn lemma_group_index_first(keys: Seq<Seq<char>>, key: Seq<char>, i: int)
    requires
        0 <= i < keys.len(),
        keys[i] == key,
        forall|k: int| 0 <= k < i ==> keys[k] != key,
    ensures
        group_index(keys, key) == i,
    decreases keys.len(),
{
    let init = keys.drop_last();
    if i < keys.len() - 1 {
        assert forall|k: int| 0 <= k < i implies init[k] != key by {
            assert(init[k] == keys[k]);
        }
        lemma_group_index_first(init, key, i);
    } else {
        lemma_group_index(init, key);
        if group_index(init, key) >= 0 {
            assert(init[group_index(init, key)] == keys[group_index(init, key)]);
        }
    }
}

fn copy_strings(v: &Vec<String>) -> (r: Vec<String>)
    ensures
        r@.map_values(|s: String| s@) == v@.map_values(|s: String| s@),
{
    let mut out: Vec<String> = Vec::new();
    let mut i: usize = 0;
    while i < v.len()
        invariant
            i <= v@.len(),
            out@.map_values(|s: String| s@) == v@.map_values(|s: String| s@).take(i as int),
        decreases v@.len() - i,
    {
        let ghost before = out@.map_values(|s: String| s@);
        out.push(v[i].clone());
        assert(out@.map_values(|s: String| s@) =~= before.push(v@[i as int]@));
        assert(v@.map_values(|s: String| s@).take(i + 1) =~= v@.map_values(|s: String| s@).take(
            i as int,
        ).push(v@[i as int]@));
        i = i + 1;
    }
    assert(v@.map_values(|s: String| s@).take(i as int) =~= v@.map_values(|s: String| s@));
    out
}

/// Groups unresolved links `(target, source path)` by target, compared
/// case-insensitively (by lower-case form), in order of first appearance.
pub fn group_unresolved(links: &Vec<(String, String)>) -> (r: Vec<UnresolvedTargetRow>)
    ensures
        row_views(r@) == grouped(links@.map_values(|p: (String, String)| (p.0@, p.1@))).1,
{
    let ghost lv = links@.map_values(|p: (String, String)| (p.0@, p.1@));
    let mut keys: Vec<Vec<char>> = Vec::new();
    let mut rows: Vec<UnresolvedTargetRow> = Vec::new();
    let mut i: usize = 0;
    assert(lv.take(0) =~= Seq::<(Seq<char>, Seq<char>)>::empty());
    assert(keys@.map_values(|k: Vec<char>| k@) =~= Seq::<Seq<char>>::empty());
    assert(row_views(rows@) =~= Seq::<RowView>::empty());
    while i < links.len()
        invariant
            i <= links@.len(),
            lv == links@.map_values(|p: (String, String)| (p.0@, p.1@)),
            keys@.map_values(|k: Vec<char>| k@) == grouped(lv.take(i as int)).0,
            row_views(rows@) == grouped(lv.take(i as int)).1,
            keys@.len() == rows@.len(),
        decreases links@.len() - i,
    {
        let (target, source) = (&links[i].0, &links[i].1);
        let key = chars_of(to_lowercase(target.as_str()).as_str());
        let ghost kv = keys@.map_values(|k: Vec<char>| k@);
        let ghost rv = row_views(rows@);
        assert(lv.take(i + 1).drop_last() =~= lv.take(i as int));
        assert(lv.take(i + 1).last() == (target@, source@));
        proof {
            lemma_group_index(kv, key@);
        }
        let mut g: usize = 0;
        while g < keys.len() && !chars_equal(&keys[g], &key)
            invariant
                g <= keys@.len(),
                kv == keys@.map_values(|k: Vec<char>| k@),
                forall|k: int| 0 <= k < g ==> kv[k] != key@,
            decreases keys@.len() - g,
        {
            assert(kv[g as int] == keys@[g as int]@);
            g = g + 1;
        }
        if g < keys.len() {
            assert(kv[g as int] == keys@[g as int]@);
            proof {
                lemma_group_index_first(kv, key@, g as int);
            }
            let old_row = &rows[g];
            let mut samples = copy_strings(&old_row.sample_sources);
            let mut more = old_row.has_more_sources;
            let ghost r = rv[g as int];
            if samples.len() < SAMPLE_SOURCE_LIMIT {
                let ghost sv = samples@.map_values(|s: String| s@);
                samples.push(source.clone());
                assert(samples@.map_values(|s: String| s@) =~= sv.push(source@));
            } else {
                more = true;
            }
            assert(old_row.reference_count as nat == r.2);
            proof {
                // A group never counts more references than there are links.
                lemma_grouped_len(lv.take(i as int));
                lemma_count_bound(lv.take(i as int), g as int);
            }
            let updated = UnresolvedTargetRow {
                target: old_row.target.clone(),
                kind: old_row.kind,
                reference_count: old_row.reference_count + 1,
                sample_sources: samples,
                has_more_sources: more,
            };
            rows.set(g, updated);
            assert(row_views(rows@) =~= grouped(lv.take(i + 1)).1);
        } else {
            proof {
                if group_index(kv, key@) >= 0 {
                    assert(kv[group_index(kv, key@)] == key@);
                }
            }
            let mut samples: Vec<String> = Vec::new();
            samples.push(source.clone());
            assert(samples@.map_values(|s: String| s@) =~= seq![source@]);
            rows.push(UnresolvedTargetRow {
                target: target.clone(),
                kind: UnresolvedTargetKind::Unresolved,
                reference_count: 1,
                sample_sources: samples,
                has_more_sources: false,
            });
            keys.push(key);
            assert(keys@.map_values(|k: Vec<char>| k@) =~= kv.push(lowercase(target@)));
            assert(row_views(rows@) =~= grouped(lv.take(i + 1)).1);
        }
        i = i + 1;
    }
    assert(lv.take(i as int) =~= lv);
    rows
}

proof fn lemma_count_bound(links: Seq<(Seq<char>, Seq<char>)>, g: int)
    requires
        0 <= g < grouped(links).1.len(),
    ensures
        grouped(links).1[g].2 <= links.len(),
    decreases links.len(),
{
    if links.len() > 0 {
        let init = links.drop_last();
        let pg = grouped(init);
        lemma_grouped_len(init);
        lemma_group_index(pg.0, lowercase(links.last().0));
        if g < pg.1.len() {
            lemma_count_bound(init, g);
        }
    }
}

/// Rows in report order: more references first, then by lower-case
/// target.
pub open spec fn report_before(a: RowView, b: RowView) -> bool {
    a.2 > b.2 || (a.2 == b.2 && lex_lt(lowercase(a.0), lowercase(b.0)))
}

/// Inserts `x` after every row that `x` does not come before (stable).
pub open spec fn insert_row(s: Seq<RowView>, x: RowView) -> Seq<RowView>
    decreases s.len(),
{
    if s.len() == 0 {
        seq![x]
    } else if !report_before(x, s.last()) {
        s.push(x)
    } else {
        insert_row(s.drop_last(), x).push(s.last())
    }
}

/// A stable sort of rows into report order.
pub open spec fn sort_rows(s: Seq<RowView>) -> Seq<RowView>
    decreases s.len(),
{
    if s.len() == 0 {
        Seq::empty()
    } else {
        insert_row(sort_rows(s.drop_last()), s.last())
    }
}

/// The kind a resolution gives a row: ambiguous targets are reported as
/// such, every other outcome as unresolved.
pub open spec fn kind_of(r: LinkResolution) -> UnresolvedTargetKind {
    match r {
        LinkResolution::Ambiguous(_) => UnresolvedTargetKind::Ambiguous,
        _ => UnresolvedTargetKind::Unresolved,
    }
}

pub open spec fn with_kind(r: RowView, k: UnresolvedTargetKind) -> RowView {
    (r.0, k, r.2, r.3, r.4)
}

proof fn lemma_insert_row(s: Seq<RowView>, x: RowView, p: int)
    requires
        0 <= p <= s.len(),
        forall|k: int| p <= k < s.len() ==> report_before(x, #[trigger] s[k]),
        p > 0 ==> !report_before(x, s[p - 1]),
    ensures
        insert_row(s, x) == s.insert(p, x),
    decreases s.len(),
{
    if s.len() == 0 {
        assert(s.insert(p, x) =~= seq![x]);
    } else if p == s.len() {
        assert(s.insert(p, x) =~= s.push(x));
    } else {
        let init = s.drop_last();
        assert forall|k: int| p <= k < init.len() implies report_before(x, #[trigger] init[k]) by {
            assert(init[k] == s[k]);
        }
        if p > 0 {
            assert(init[p - 1] == s[p - 1]);
        }
        lemma_insert_row(init, x, p);
        assert(init.insert(p, x).push(s.last()) =~= s.insert(p, x));
    }
}

fn report_before_exec(a: &UnresolvedTargetRow, b: &UnresolvedTargetRow) -> (r: bool)
    ensures
        r == report_before(a.view5(), b.view5()),
{
    if a.reference_count != b.reference_count {
        return a.reference_count > b.reference_count;
    }
    lex_less(
        &chars_of(to_lowercase(a.target.as_str()).as_str()),
        &chars_of(to_lowercase(b.target.as_str()).as_str()),
    )
}

/// The report: each row gets the kind its resolution gives; rows are
/// ordered by reference count (highest first), then by lower-case target;
/// at most `limit` are kept, while `total_count` counts all of them.
pub fn finish_unresolved_report(
    rows: Vec<UnresolvedTargetRow>,
    resolutions: &Vec<LinkResolution>,
    limit: usize,
) -> (r: UnresolvedReport)
    requires
        resolutions@.len() == rows@.len(),
    ensures
        r.total_count == rows@.len(),
        row_views(r.rows@) == {
            let kinded = Seq::new(
                rows@.len(),
                |i: int| with_kind(rows@[i].view5(), kind_of(resolutions@[i])),
            );
            let sorted = sort_rows(kinded);
            if limit < sorted.len() {
                sorted.take(limit as int)
            } else {
                sorted
            }
        },
{
    let ghost kinded = Seq::new(
        rows@.len(),
        |i: int| with_kind(rows@[i].view5(), kind_of(resolutions@[i])),
    );
    let total_count = rows.len();
    let mut rows = rows;
    let mut sorted: Vec<UnresolvedTargetRow> = Vec::new();
    let mut reversed: Vec<UnresolvedTargetRow> = Vec::new();
    // Move rows out back to front so each can be owned, then insert them
    // in their incoming order.
    let n = rows.len();
    let ghost orig = rows@;
    while rows.len() > 0
        invariant
            rows@.len() + reversed@.len() == n,
            n == orig.len(),
            rows@ == orig.take(rows@.len() as int),
            forall|k: int| 0 <= k < reversed@.len() ==> reversed@[k] == orig[n - 1 - k],
        decreases rows@.len(),
    {
        let row = rows.pop().unwrap();
        assert(rows@ =~= orig.take(rows@.len() as int));
        reversed.push(row);
    }
    let mut k: usize = 0;
    assert(kinded.take(0) =~= Seq::<RowView>::empty());
    assert(row_views(sorted@) =~= Seq::<RowView>::empty());
    while reversed.len() > 0
        invariant
            reversed@.len() + k == n,
            n == orig.len(),
            n == resolutions@.len(),
            kinded == Seq::new(
                orig.len(),
                |i: int| with_kind(orig[i].view5(), kind_of(resolutions@[i])),
            ),
            forall|m: int| 0 <= m < reversed@.len() ==> reversed@[m] == orig[n - 1 - m],
            row_views(sorted@) == sort_rows(kinded.take(k as int)),
        decreases reversed@.len(),
    {
        let mut row = reversed.pop().unwrap();
        assert(row == orig[k as int]);
        row.kind = match &resolutions[k] {
            LinkResolution::Ambiguous(_) => UnresolvedTargetKind::Ambiguous,
            _ => UnresolvedTargetKind::Unresolved,
        };
        let ghost xv = row.view5();
        assert(xv == kinded[k as int]);
        let ghost sv = row_views(sorted@);
        let mut p = sorted.len();
        while p > 0 && report_before_exec(&row, &sorted[p - 1])
            invariant
                p <= sorted@.len(),
                sv == row_views(sorted@),
                xv == row.view5(),
                forall|q: int| p <= q < sv.len() ==> report_before(xv, #[trigger] sv[q]),
            decreases p,
        {
            p = p - 1;
        }
        proof {
            lemma_insert_row(sv, xv, p as int);
            assert(kinded.take(k + 1).drop_last() =~= kinded.take(k as int));
            assert(kinded.take(k + 1).last() == xv);
        }
        sorted.insert(p, row);
        assert(row_views(sorted@) =~= sv.insert(p as int, xv));
        k = k + 1;
    }
    assert(kinded.take(k as int) =~= kinded);
    sorted.truncate(limit);
    UnresolvedReport { rows: sorted, total_count }
}

} // verus!
