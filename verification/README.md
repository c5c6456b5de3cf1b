# wfc_gen

Wave function collapse image generation, verified with Verus.

A model is learnt from a small picture: every square window of a given side is a pattern,
patterns that are equal are counted together, and two patterns may stand side by side when their
pixels agree where they overlap. A wave of cells, each allowing a set of patterns, is then
collapsed cell by cell (lowest entropy first, patterns chosen by weight); each choice is
propagated to the neighbors, and contradictions are undone by backtracking. A fully decided wave
is drawn back into a picture.

Layout:

- `src/` — the library, every function with a contract proved by Verus:
  - `bitset`, `cell`, `wave`: sets of patterns, cells, and the grid with its counters;
  - `pixel_grid`, `pattern`, `pattern_extractor`, `rules`, `model`: learning from a picture;
  - `entropy_heap`, `entropy_buckets`, `undo_log`, `solver`: observation, propagation and
    backtracking;
  - `renderer`: drawing a decided wave;
  - `random`: the trusted calls into `rand`.
- `app/` — the command-line program: reading and writing PNG files with `image`, the
  floating-point entropy that orders the cells, timing and reporting.
- `tests/` — tests of the library.
