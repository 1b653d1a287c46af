# bitrag

Integer-only bit-vector primitives for retrieval, and discrete gradient
descent (DGD) over bit vectors, written in Verus with their contracts proved.

## Layout

- `src/` — the verified library.
  - `dgd` — the `DgdState` trait, one-step and until-local-minimum descent,
    the Hamming reference state (descent from Hamming distance `d` to the
    target takes exactly `d` steps) and a weighted-sum state.
  - `bitset`, `popcount` — fixed-width gram bitsets: set algebra, whole-set
    shifts, shift cross-correlation, counts.
  - `ngram`, `vocab`, `corpus`, `eval` — character n-grams, the sorted
    vocabulary with document frequencies, corpus lines, text truncation and
    the greedy set cover of a query's grams.
  - `sign2`, `iso`, `nibble4_tokenizer`, `nibble_hash`, `object_capsule` —
    the 1024-bit block in its readings (words, bytes, nibbles, 2-bit signs),
    the UTF-8 block tokenizer, the nibble hash and the object capsule.
  - `gold_cycle`, `walk`, `rustc_text` — the degree-10 m-sequence (maximal
    period proved for `x^10 + x^3 + 1`) and GOLD sequences, circular
    cross-correlation, nibble edits, the fixed-seed generator, the
    alignment-guided walk as a state machine driven by an error-count oracle,
    and the parsing around the compiler oracle.
  - `text` — string building helpers.
- `tests/` — tests of the library.
- `app/` — what stays outside the verified library: floating-point scores
  (Jaccard variants, IDF weighting, similarity matrices, PageRank), file and
  process I/O (corpus loading, running rustc), the walk's oracle loop, and
  plots and fonts with plotters.
