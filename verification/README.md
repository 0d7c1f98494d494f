# duplex

Search candidate speedcubing algorithms for the last-layer cases (ZBLL, or
all of 1LLL) that they solve, alone or chained two at a time with an AUF
between them (a "duplex"), and pick a cheap subset of a candidate pool
that covers the cases.

The library in `src/` is written in Verus and its functions are verified
against their contracts; the functions taken on trust are a wrapper
around `String::push` (`text::push_char`) and two around serde_json's
parser (`json::parse_json` for one value, `json::parse_json_list` for a
list):

- `moves`: move notation, and a reader for it whose result and error
  message are stated exactly; what is written reads back unchanged.
- `cube`: the cube as 54 stickers; moves as quarter turns of coordinates;
  states, transforms and the last-layer index of a state.
- `alg`: algorithms, their inverses and mirror images (a mirror image is
  proved to be the reflection of the algorithm).
- `enumerate`: the last-layer cases, one canonical state per class of
  AUF variants, listed in the order in which their states are first built.
- `pieces`: stickers that move together; moves keep pieces whole.
- `search`: which cases each algorithm, and each duplex, solves; every
  solution listed for a case is proved to solve it up to a final AUF, and
  a case is covered exactly when some trial reaches it. The written move
  sequence of a solution reads back as those moves when every algorithm
  has at least one move: an empty algorithm after an AUF is written as the
  AUF and a trailing space (`U' `), which the reader refuses.
- `candidates`: reading candidate lists (CSV lines, or entries of a JSON
  list) into candidates and per-line errors.
- `optimize`: the greedy weighted set cover over candidates, with what its
  report counts proved to match its solutions.
- `json`: JSON text read one level at a time.
- `cli`: the computations behind the command line (case sets, coverage
  summaries, report entries).

`app/main.rs` is the command line, which reads the files, prints and
writes reports:

```sh
duplex-search solve --algs algs.csv            # which cases the list solves
duplex-search optimize --algs pool.json --out report.json
```

`--algs` takes a `.csv` with one alg per line as `moves,mirror,invert`, or a
`.json` array of `{name, moves, mirror, invert}` objects (read by the
verified `candidates::load_json`, serde_json parsing each level).
