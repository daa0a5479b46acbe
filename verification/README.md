# taflzero

The game logic of a Hnefatafl engine (Copenhagen and historical 11x11 rules,
Tablut 9x9), written in Verus: every function in `src/` carries a contract
and is proved against it.

## Layout

- `src/board/` — the board and its invariants, precomputed geometry, Zobrist
  hashing, FEN reading and writing (with a proof that reading a written FEN
  gives the position back), algebraic notation, and the packed bit-plane
  positions used for training data.
- `src/moves/` — move encoding, move generation (exactly the legal moves, each
  once), making and unmaking moves (unmaking restores the position), captures
  including shield walls and king captures, the capture generator, perft.
- `src/evaluation/` — enclosure tests, the fort rule, terminal positions and
  their order of precedence, mobility scores.
- `src/search/` — the policy encoding (a bijection on slides), training
  samples and their byte layout, the network's input planes, the curriculum
  buffer and random positions.
- `src/nnue.rs` — the incrementally updated NNUE accumulator, kept equal to
  the sum of the active weight rows.
- `src/dataset.rs` — game records and the batcher that collects them.
- `src/uci.rs` — what each console command asks for.
- `app/` — the command-line program: argument handling, files, the console
  loop and the floating-point conversions, around the library.
- `tests/` — tests of the library on concrete positions.

Random numbers come from the `rand` crate through three small wrappers in
`src/board/zobrist.rs`, whose contracts are trusted.
