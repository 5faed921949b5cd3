# sigil

Deterministic structural code intelligence: an index of a code base
(one entity per symbol the tree-sitter parsers find, with its lines,
parent and content hash; the blocks of Markdown files as entities;
references; previous rows reused for unchanged files), the building
blocks of a structural diff (pairing old and new entities, line and
token details, cross-file patterns, groups, summaries and their
renderings, from entity classifications handed in), co-change mining
over git history, query renderings, and the agent installers, with their
behaviour stated as contracts and proved by Verus.

The command line (`app/`) indexes, queries, explores, mines co-changes
and installs the agent integrations; it has no `diff` command, since the
step that classifies each entity's change is not part of this library.

## Layout

- `src/` — the verified library.
  - `text.rs`, `fmt.rs` — character-sequence helpers and number/padding
    rendering used by every renderer.
  - `entity.rs`, `hasher.rs`, `index.rs`, `cache.rs`, `parser/`,
    `markdown_index.rs` — entities and references, their hashes, the
    index's deterministic steps, the content-hash cache, codeix's parsers
    behind contracts, and the Markdown block scanner.
  - `matcher.rs`, `change_detail.rs`, `inline_diff.rs`, `diff.rs`,
    `diff_json.rs`, `grouping.rs`, `output.rs`, `formatter.rs`,
    `markdown_formatter.rs` — the structural diff: pairing old and new
    entities, line diffs, change details, patterns, summaries and their
    renderings.
  - `cochange.rs` — co-change mining: file pairs, supports, counts, and
    the manifest order (heaviest first, compared exactly).
  - `query/` — the in-memory index lookups, the text renderings of
    queries, the explore overview, and the SQL of the DuckDB backend.
  - `install/` — what each agent installer writes, decided from the
    current file contents, with the laws that make reinstalling a no-op
    and uninstalling restore the user's text.
  - `tokens.rs`, `benchmark.rs`, `where_cmd.rs`, `git.rs` — token
    counting, benchmark inputs, the `where` locator, git output parsing.
- `tests/` — tests of the library.
- `app/` — the command line: argument parsing, files, git, JSON, and the
  floating-point weights of co-change pairs.
