# Walleye

Walleye is a UCI chess engine built on classical alpha-beta search with quiescence search
(capture extension) and MVV-LVA move ordering. It loads positions from FEN strings and can
play against itself from the terminal.

The engine's logic is written in Verus and proved against its specifications; the
executable around it is ordinary Rust.

## Layout

- `src/` — the verified library:
  - `board.rs`: squares, pieces, positions, and the incremental Zobrist key updates;
  - `zobrist.rs`: the key table, drawn from a seeded ChaCha8 generator;
  - `fen.rs`: FEN and algebraic square parsing;
  - `move_generation.rs`: legal move generation, attack detection and castling;
  - `evaluation.rs`: the static evaluation;
  - `engine.rs`: move ordering, the capture search, alpha-beta search and the iterative
    deepening driver at the root;
  - `search.rs`, `transposition_table.rs`, `draw_table.rs`: search bookkeeping;
  - `uci.rs`: parsing of `position` and `go` commands and the engine's replies;
  - `utils.rs`, `text.rs`: input cleaning and text helpers;
  - `mailbox.rs`: the byte-coded board representation.
- `tests/` — tests of the library, including perft counts for move generation.
- `app/` — the command line program: argument handling, the UCI loop, threads, timing and
  printing.

## Usage

By default the engine starts in UCI mode. `-P` has it play against itself, `--fen=...`
starts from a given position, and `-T --depth=N` benchmarks move generation.
