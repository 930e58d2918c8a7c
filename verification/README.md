# chess_engine

A chess engine core written in Verus: every function of the library under
`src/` carries a contract that Verus proves.

## Layout

- `src/bitboard.rs`, `src/text.rs`: bit tricks on `u64` boards; building text
  from ASCII bytes, splitting text into words and fields.
- `src/board/`: the position (bitboards and mailbox kept in step), its
  abstract model `PositionModel`, Zobrist keys, FEN input and output, and the
  plausibility checks of `validate`.
- `src/moves/`: the 16-bit move encoding, UCI long algebraic notation and SAN.
- `src/movegen/`: attack sets, pseudo-legal and strictly legal generation,
  the copy-make reference generator, and static exchange evaluation.
- `src/eval/`: the tapered classical evaluation; `params.rs` holds its weights.
- `src/tt/`: the transposition table, modelled as a sequence of entries.
- `src/search/`: iterative-deepening PVS with quiescence, null move, LMR,
  futility pruning and aspiration windows; `Engine` owns the table.
- `src/perft.rs`: perft and divide, proved to count the legal lines.
- `src/uci/`: `position`, `go` and `setoption` parsing, and `UciSession`, the
  command-by-command state machine of a UCI conversation.
- `app/`: the `chess-engine` program: `analyze` and `perft` on the command
  line, and `chess-engine uci`, which reads standard input, runs searches on a
  worker thread and carries out what `UciSession` asks for.
- `tests/`: perft counts, rules, search, UCI and library tests.

## What is proved

Among other things: the legal move list holds exactly the legal moves of any
position whose pseudo-legal moves fit a list; making and unmaking a move
restores the position; the Zobrist key always equals the key computed from
scratch; `from_fen` accepts exactly the well-formed, plausible FEN texts and
names the first problem of any other; the text `to_fen` writes reads back
as the same board, side, castling rights, en-passant square, clocks and key; perft
equals the number of legal move sequences of the given length (saturated at
`u64::MAX`) whenever every position within that depth has few enough
pseudo-legal moves for a move list, and divide's counts add up to it; a table probe
returns what was stored; every principal variation the search reports is a
line of legal moves, the lines come best first and start with different moves,
and the searched position is left as it was.
