# WatchMind

A personal, explainable anime recommendation engine, written in Verus.

## Layout

- `src/` — the verified library. Every function states its behaviour in
  `requires` / `ensures` and Verus proves it.
  - `domain` — the data contracts: identifiers, ratings, ratios, weights,
    tags, works, rating records, drops, viewing events, contributions.
  - `import` — the offline import of a rating history (CSV) against a
    catalog snapshot, with exact diagnostics, and the law that the order of
    the rows does not matter.
  - `candidates` — the candidate filters, their report and the pre-ranking.
  - `explanation` — the three best reasons and two main risks of a score.
  - `diversification` — the caps per franchise, studio and dominant tag, the
    feasibility search that keeps the list at the largest possible size, and
    the laws that the caps hold and that a lookahead pick never shrinks it.
  - `evaluation` — the leave-one-out cases, the baseline keys, rankings and
    rank statistics.
  - `affinity`, `profile`, `scoring` — settings and the integer decisions of
    the personal affinity, the taste profile and the score.
  - `catalog`, `storage`, `cli`, `api`, `fusion` — the decisions of the
    AniList, SQLite, command line and HTTP adapters.
  - `ieee`, `text`, `sort` — binary64 patterns, text rules and a stable sort.
- `tests/` — tests of the library on concrete values.
- `app/` — the programs: the command line and, when started as
  `watchmind-api`, the local HTTP API, with the SQLite store, the AniList
  client and the computations on binary64 numbers (affinities, clustering,
  scores, marginal relevance, rank fusion).

Binary64 numbers cross into the library as bit patterns; the library
compares them exactly and leaves the arithmetic to the programs.
