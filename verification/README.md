# gridentify

The game Gridentify: a 5x5 board of numbers on which a move joins a path of
equal, side-by-side numbers into its last cell, which takes their sum; the
other cells of the path are refilled with 1, 2 or 3.

The library (`src/`) holds the game rules and the players, each function
with its contract:

- `board`, `paths`: the grid, neighbour tables and the depth-first
  enumeration of paths.
- `state`, `grid`: game positions, move listing and validation (`grid` is
  the first form, with the three-way validation).
- `random`, `local`: tile generators (seeded and thread-random) and a game
  played locally.
- `session`: the server's decisions for one player's game.
- `bot`: the corner-chain heuristic.
- `cells`, `lucid`, `marks`, `memo`, `weigh`, `valuation`, `choice`: the
  look-ahead player, which reasons about groups of up to four cells as bit
  masks, what the refilled flag of a group means, the valuation of a
  position and the move it picks.

`app/` holds the programs around it: the bot, the TCP game and score
servers with their SQLite table, a client, and the floating-point
expectimax search.
