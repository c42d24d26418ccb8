# loglog

A log classifier: rules grouped by category (`app`) and child, each child
with a tag that pre-filters lines; a line is matched against the rules of the
children whose tags it contains (regex rules first, otherwise keys and
ignore words), and the results are grouped by category, child and tag.

Layout:

- `src/` — the library, verified with Verus:
  - `config.rs` — the rule configuration and the compilation of its regexes;
  - `matcher.rs` — the tag index, the tag pre-filter (`contains`, or an
    Aho-Corasick automaton from 50 tags on), rule matching, statistics;
  - `zero_copy.rs` — results that borrow the line and the rule texts;
  - `result.rs` — grouping of results, the text report and the summary;
  - `reader.rs` — which reader a log file needs and which archive entries are read;
  - `pool.rs` — pools of reusable strings and vectors;
  - `pattern.rs`, `collections.rs`, `text.rs`, `render.rs` — regexes, hash
    collections, string order and text building.
- `app/` — the command-line program: argument parsing, YAML loading, file and
  archive reading, JSON output and printing.
- `tests/` — tests of the library.
