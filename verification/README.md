# chess_board

A chess board on a 10x12 mailbox, verified with Verus: positions are read from
Forsyth-Edwards notation (FEN), pseudo-legal moves are generated for the side
to move, and squares can be tested for attack and kings for check.

- `src/types.rs`: colours, piece types, squares, pieces, the piece list,
  castling rights and FEN errors.
- `src/fen.rs`: reading the placement, side-to-move and castling fields.
- `src/logic.rs`: the board, reading a whole FEN position, what a square
  holds, and printing the board as text.
- `src/moves.rs`: move generation, attack and check detection.
- `src/start.rs`: the starting position and the default board.
- `src/text.rs`: characters, whitespace splitting and decimal numbers.
- `app/main.rs`: a small program that prints the starting position and its moves.
