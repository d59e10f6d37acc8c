//! Schema versions and migrations of the index database.
//!
//! Migrations are ordered `(version, sql)` pairs applied on top of the
//! version stored in the `meta` table. A database at a newer version than
//! this build knows, or one whose migration fails, is rebuilt from scratch.

use vstd::prelude::*;

verus! {

/// Latest schema version.
pub const SCHEMA_VERSION: i64 = 3;

/// v1 — the initial schema: files, aliases, headings, links, tags, tasks,
/// frontmatter and the full-text table.
pub const V1_SCHEMA_SQL: &'static str = "
CREATE TABLE IF NOT EXISTS files (
    id         TEXT PRIMARY KEY,
    path       TEXT UNIQUE NOT NULL,
    mtime_secs INTEGER NOT NULL
);

CREATE TABLE IF NOT EXISTS aliases (
    id      INTEGER PRIMARY KEY,
    file_id TEXT NOT NULL REFERENCES files(id) ON DELETE CASCADE,
    alias   TEXT NOT NULL COLLATE NOCASE
);
CREATE INDEX IF NOT EXISTS idx_aliases_alias ON aliases(alias COLLATE NOCASE);
CREATE INDEX IF NOT EXISTS idx_aliases_file  ON aliases(file_id);

CREATE TABLE IF NOT EXISTS headings (
    id      INTEGER PRIMARY KEY,
    file_id TEXT NOT NULL REFERENCES files(id) ON DELETE CASCADE,
    level   INTEGER NOT NULL,
    text    TEXT NOT NULL
);
CREATE INDEX IF NOT EXISTS idx_headings_file ON headings(file_id);

CREATE TABLE IF NOT EXISTS links (
    id                 INTEGER PRIMARY KEY,
    source_id          TEXT NOT NULL REFERENCES files(id) ON DELETE CASCADE,
    target             TEXT NOT NULL,
    fragment           TEXT,
    alias              TEXT,
    resolved_target_id TEXT REFERENCES files(id) ON DELETE SET NULL
);
CREATE INDEX IF NOT EXISTS idx_links_source   ON links(source_id);
CREATE INDEX IF NOT EXISTS idx_links_target   ON links(target);
CREATE INDEX IF NOT EXISTS idx_links_resolved ON links(resolved_target_id);

CREATE TABLE IF NOT EXISTS tags (
    id      INTEGER PRIMARY KEY,
    file_id TEXT NOT NULL REFERENCES files(id) ON DELETE CASCADE,
    name    TEXT NOT NULL
);
CREATE INDEX IF NOT EXISTS idx_tags_name  ON tags(name);
CREATE INDEX IF NOT EXISTS idx_tags_file  ON tags(file_id);

CREATE TABLE IF NOT EXISTS tasks (
    id      INTEGER PRIMARY KEY,
    file_id TEXT NOT NULL REFERENCES files(id) ON DELETE CASCADE,
    text    TEXT NOT NULL,
    done    INTEGER NOT NULL DEFAULT 0
);
CREATE INDEX IF NOT EXISTS idx_tasks_file ON tasks(file_id);

CREATE TABLE IF NOT EXISTS frontmatter (
    file_id TEXT PRIMARY KEY REFERENCES files(id) ON DELETE CASCADE,
    data    TEXT NOT NULL
);

CREATE VIRTUAL TABLE IF NOT EXISTS fts USING fts5(
    path, title, body,
    tokenize='porter unicode61'
);
";

/// v1 → v2 — the semantic `chunks` table (embeddings as little-endian f32
/// bytes).
pub const V2_CHUNKS_SQL: &'static str = "
CREATE TABLE IF NOT EXISTS chunks (
    id            TEXT PRIMARY KEY,
    file_id       TEXT NOT NULL REFERENCES files(id) ON DELETE CASCADE,
    chunk_index   INTEGER NOT NULL,
    heading_path  TEXT,
    content       TEXT NOT NULL,
    content_hash  TEXT NOT NULL,
    token_count   INTEGER NOT NULL,
    embedding     BLOB NOT NULL
);
CREATE INDEX IF NOT EXISTS idx_chunks_file ON chunks(file_id);
CREATE INDEX IF NOT EXISTS idx_chunks_hash ON chunks(content_hash);
";

/// v2 → v3 — `heading_text` and `heading_level` on `chunks`.
pub const V3_CHUNKS_HEADING_SQL: &'static str = "
ALTER TABLE chunks ADD COLUMN heading_text TEXT;
ALTER TABLE chunks ADD COLUMN heading_level INTEGER;
";

/// The migrations, in order, each with the version it brings the schema to.
pub fn migrations() -> (r: Vec<(i64, &'static str)>)
    ensures
        r@.len() == 3,
        r@[0] == (1i64, V1_SCHEMA_SQL),
        r@[1] == (2i64, V2_CHUNKS_SQL),
        r@[2] == (3i64, V3_CHUNKS_HEADING_SQL),
{
    let mut v: Vec<(i64, &'static str)> = Vec::new();
    v.push((1, V1_SCHEMA_SQL));
    v.push((2, V2_CHUNKS_SQL));
    v.push((3, V3_CHUNKS_HEADING_SQL));
    v
}

/// What opening a database must do to its schema.
#[derive(Debug, Clone, Copy, PartialEq, Eq)]
pub enum SchemaAction {
    /// The stored version is the latest: nothing to do.
    UpToDate,
    /// The stored version is newer than this build knows: drop every table
    /// and apply all migrations.
    Rebuild,
    /// Apply the migrations above the stored version (on failure, rebuild).
    MigrateFrom(i64),
}

/// The action for a stored schema version (0 when none is stored).
pub fn schema_action(stored_version: i64) -> (r: SchemaAction)
    ensures
        r == (if stored_version == SCHEMA_VERSION {
            SchemaAction::UpToDate
        } else if stored_version > SCHEMA_VERSION {
            SchemaAction::Rebuild
        } else {
            SchemaAction::MigrateFrom(stored_version)
        }),
{
    if stored_version == SCHEMA_VERSION {
        SchemaAction::UpToDate
    } else if stored_version > SCHEMA_VERSION {
        SchemaAction::Rebuild
    } else {
        SchemaAction::MigrateFrom(stored_version)
    }
}

/// The migrations to apply above `current`, in order.
pub fn pending_migrations(current: i64) -> (r: Vec<(i64, &'static str)>)
    ensures
        r@ == migrations_spec().filter(|m: (i64, &'static str)| m.0 > current),
{
    let all = migrations();
    let mut out: Vec<(i64, &'static str)> = Vec::new();
    let mut i: usize = 0;
    assert(all@ =~= migrations_spec());
    assert(all@.take(0) =~= Seq::<(i64, &'static str)>::empty());
    proof {
        reveal(Seq::filter);
    }
    while i < all.len()
        invariant
            i <= all@.len(),
            all@ == migrations_spec(),
            out@ == all@.take(i as int).filter(|m: (i64, &'static str)| m.0 > current),
        decreases all@.len() - i,
    {
        assert(all@.take(i + 1).drop_last() =~= all@.take(i as int));
        assert(all@.take(i + 1).last() == all@[i as int]);
        proof {
            reveal(Seq::filter);
        }
        if all[i].0 > current {
            out.push(all[i]);
        }
        i = i + 1;
    }
    assert(all@.take(i as int) =~= all@);
    out
}

pub open spec fn migrations_spec() -> Seq<(i64, &'static str)> {
    seq![(1i64, V1_SCHEMA_SQL), (2i64, V2_CHUNKS_SQL), (3i64, V3_CHUNKS_HEADING_SQL)]
}

} // verus!
