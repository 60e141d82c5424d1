# chess_core

A small chess core, verified with Verus: a bitboard board with a mailbox,
FEN reading and writing, attack sets and pseudo-legal move generation.

Layout of `src/`:

- `types.rs`: colors, pieces, squares, moves, mailbox codes and the board
  constants.
- `bits.rs`: what a bit of a bitboard means, and the bit-vector lemmas.
- `board.rs`: the board, placing pieces and the consistency check between
  the bitboards and the mailbox.
- `text.rs`: the text operations that FEN needs (splitting, decimal numbers).
- `fen.rs`: reading and writing FEN, with the grammar stated as spec
  functions.
- `fen_laws.rs`: what is written reads back as the same board, and what is
  read writes back as a string that reads as the same board.
- `fen_canonical.rs`: FEN in canonical form (single spaces, each run of
  empty squares as one digit, castling letters in order, clocks without
  sign or leading zeros) reads as a board that is written back as the same
  string.
- `attacks.rs`: knight, king, bishop and rook attack sets, stated
  geometrically, with the laws of sliders: more blockers never add targets,
  attacks are symmetric, the start square's own bit does not matter, and
  rook and bishop targets never overlap.
- `moves.rs`: move generation, whose result is stated as one sequence in
  generation order, and the law that moves respect the sides.

Squares are written `Square(n)`, with `n = rank * 8 + file` (a1 is
`Square(0)`, h8 is `Square(63)`); there are no named constants per square:
constants here are plain literals, and a square is built by calling
`Square`. `no_square()` gives the
square one past h8 that stands for "no square".

The tests under `tests/` exercise the library from outside.
