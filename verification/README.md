# poker_solver

A heads-up no-limit hold'em solver toolkit whose core logic is proved
with Verus.

## Layout

- `src/` — the verified library. Its functions carry `requires` /
  `ensures` contracts and the laws of the library are public proof
  functions (`lemma_*`). The few calls into `rand` and `rand_xoshiro`
  stand behind trusted wrappers whose contracts are believed, not proved.
  - `game`, `layout` — players, info-set ids and the integer layout of
    the CFR regret / strategy tables.
  - `cards`, `eval`, `showdown`, `preflop`, `equity` — card encoding,
    five- and seven-card evaluation, showdown winners, the 169 preflop
    classes, exact and sampled equity tallies.
  - `text`, `range`, `json`, `translate` — string helpers, range
    normalisation, a small JSON value model and the fixture-to-config
    translation for TexasSolver.
  - `notebook` — the Markdown plan to notebook-cell parser.
  - `cache`, `seed` — the flop-cache entry format, pack/unpack framing and
    the seed entries.
  - `demo`, `solve` — the text helpers of the demo and the argument checks
    of the `solve` command.
- `tests/` — ordinary Rust tests against the compiled library.
- `app/` — the command-line program: argument parsing, file I/O, JSON
  (de)serialisation, terminal colours and the floating-point CFR
  iterations, none of which Verus checks.
