# laidout

A pretty-printing kernel with deterministic layout, verified with Verus.
Documents are immutable trees of text, line breaks, nesting, alignment,
choices, tags and penalties. A document is prepared once against domain
limits, then rendered either by a fast greedy engine or by an exact engine
that returns the first cheapest layout under a consumer cost model
(overflow first, then burden).

## Layout

- `src/doc.rs`: documents, text runs and their display widths, `flatten`
  and `group`.
- `src/prepare.rs`, `src/domains.rs`: preparation, structural bounds, and the
  proofs that every layout of a prepared document stays within them.
- `src/frontier.rs`: the exact engine, its memo, limits and pruning.
- `src/kernel.rs`: a standalone dominance frontier builder over scratch
  candidates.
- `src/greedy.rs`, `src/summary.rs`: the fast engine, which decides each
  choice from first-stop fit summaries built once per document.
- `src/brute.rs`, `src/research.rs`, `src/cost.rs`: resolutions, output
  trees, materialization and the cost models.
- `src/render.rs`, `src/workspace.rs`, `src/visit.rs`: owned rendering,
  reusable workspaces with fixed or growable capacities, and layout
  visitors.
- `src/table.rs`, `src/text.rs`, `src/corpus/`: tables, text ingestion and
  formatters for JSON, SQL and a small expression language.
- `app/`: error types with `std::error::Error`, and the `fmt::Write` and
  `io::Write` sinks.

Every function in `src/` carries a contract checked by Verus; the tests
under `tests/` run the library on concrete documents.
