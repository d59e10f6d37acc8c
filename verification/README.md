# tektite

The note-vault engine of a markdown knowledge base, with its logic verified
by Verus.

`src/` is the verified library:

- `markdown`, `syntax` — frontmatter splitting, wiki-link and hashtag
  grammars, and metadata extraction over the markdown event stream (links
  and tags never come from code).
- `chunker` — heading-based chunking with size guardrails, embed inputs and
  their SHA-256 content hashes.
- `resolve`, `rename` — wiki-link resolution tiers with proximity
  tiebreaking; rename planning and link rewriting.
- `search`, `fuzzy` — fuzzy file matching, the full-text query, and the
  merging and ranking of search results.
- `graph`, `neighborhood` — graph filters, the node cap, the breadth-first
  neighborhood walk and the edge order.
- `index`, `schema` — index records, unresolved-link reports, schema
  migrations.
- `vault`, `watcher`, `embed`, `commands` — vault path rules and tree order,
  rename checks, write-token suppression of watcher events, embedding job
  order and chunk reuse, and the shell's small rules (recent vaults,
  appended links, completions, cache keys).

`app/` is the I/O around it: the SQLite index, the vector store and cache,
the background embedding worker, the vault's filesystem operations, the file
watcher and the shell commands. Floating-point similarity lives there too.

`tests/` exercises the library on concrete inputs.
