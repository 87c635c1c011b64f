# xqcore — a verified Chinese chess coach

The engine decides, a language model only explains. `src/` is the library, verified
with Verus:

- `xiangqi`, `movegen` — the board, the movement rules, check, legal moves;
- `fen`, `notation` — position text (FEN) and Chinese move notation;
- `engine` — evaluation, alpha-beta search with a capture-only quiescence search,
  analysis of all moves or of one piece's moves;
- `game` — a game as a move list: replay, undo, the end of the game, move review;
- `coach` — prompts for the language model and the template advice used without one,
  for the position, a piece of the side to move, or an opponent's piece (its threat);
- `settings` — the chat service settings and the user's edits to them;
- `sort`, `text` — a stable sort and decimal text.

Each module states its functions' results over spec functions, and the laws that tie
functions together (reading back a written FEN, and every FEN text in the written form
reading back to itself, undo restoring the position, the evaluation treating both
colours and both wings alike, a legal move never leaving its own king in check, a
square's targets coming in the order of the legal moves, a piece's analysis agreeing
with the position's, a reviewed move losing nothing exactly when it is a best move) are
proof functions named `law_*`.

`app/` holds what Verus does not check: the web service (axum), the chat-service
calls (reqwest), the settings file, and the C ABI exports for a browser build.
`tests/` runs the library on concrete positions.
