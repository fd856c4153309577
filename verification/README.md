# Mindless

A UCI chess engine whose library is written in Verus. The board, FEN,
static exchange evaluation, the transposition table, the evaluations
(hand-crafted PeSTO and NNUE) and the reading of UCI commands and options
carry exact contracts that Verus proves. For move generation, perft, the
search and self-play games the proved contracts are partial: every generated
move fits the position and a king move never lands on an attacked square;
every safe king step is generated, and, when the side to move is not in
check, so is every available castling and every move of a pawn (pushes,
double pushes, captures and all four promotions), knight, bishop, rook or
queen that shields its king from no enemy line; when no move fits at all,
nothing is generated, perft counts no node, the search returns no move, and
a full-window search node that is not cut short scores a mate in check and a
draw otherwise. Search nodes in a
repeated, dead or fifty-move position score a draw, and a quiet node out of
check never scores below its static evaluation. Perft and the search leave
the board as they found it; the search returns a move of the generator, and
does return one whenever a plainly legal move exists; search scores stay in
range; a self-play game ends and is adjudicated by verified rules. That the
generator lists every legal move (en passant, check evasions and the moves of
pieces that may be pinned included) and only legal moves is checked by the
perft tests, not proved.

The engine's default evaluation is its bundled NNUE network: the executable
reads `tools/nnue/nets/mindless-v1.nnue` and hands the bytes to
`Eval::default_net`, which falls back to the hand-crafted evaluation only
when they do not form a network.

## Layout

- `src/` — the verified library (crate `mindless`).
  - `bits`, `bitboard`, `types`, `moves` — squares, pieces, bit sets and the
    packed move encoding.
  - `attacks`, `magic` — leaper and slider attack sets.
  - `position`, `zobrist`, `board` — the position model, hashing, and
    make/unmake with their inverse laws.
  - `fen`, `fen_law`, `display` — FEN reading and writing (with the round-trip
    law), diagrams and error messages.
  - `movegen`, `perft` — move generation and its node-count harness.
  - `eval`, `nnue`, `see` — evaluations (with their mirror-symmetry laws and
    the incremental-update law of the network) and exchange evaluation.
  - `tt`, `clock`, `search` — the table, time reading and the alpha-beta
    search.
  - `datagen`, `uci` — self-play games and option reading; UCI command reading.
- `app/` — the executable: the UCI loop and its search thread, the perft and
  bench command-line helpers, and the multi-threaded data generator (file
  and console I/O).
- `tests/` — tests of the library.
