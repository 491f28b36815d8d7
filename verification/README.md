# game_2048

The 2048 sliding-tile game on a four by four board, with its rules proved
in Verus, and a terminal front end built on ratatui and crossterm.

- `src/line.rs`: sliding one line of four cells toward its front, with the
  mathematical definition of a slide (close up the tiles, merge equal
  neighbours front first) and the two-cursor algorithm proved against it.
- `src/game.rs`: the board, the moves in the four directions, the score,
  the list of empty cells, the random spawning of a 2 or a 4 (through
  `rand`), and the checks that every sum stays within an `i32`.
- `src/laws.rs`: properties of every move: the sum of the tiles is kept,
  the tiles end up packed at the edge, no move adds a tile, a move that changes the board frees
  a cell, and a full board can move exactly when two neighbours are equal.
- `src/play.rs`: the events of a game (move, restart, quit, game over),
  what each does, the keys that raise them, and two properties of events:
  quitting is never undone, and a raised event ends its chain in one step.
- `app/main.rs`: drawing, reading keys and the event loop.
