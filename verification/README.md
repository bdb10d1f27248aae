# boardgames

Game engines for self-play experiments, with their rules proved in Verus.

`src/` is the verified library:

- `pig`, `odds_game`, `value_game`, `traffic_light`, `tic_tac_toe`,
  `dots_and_boxes`: small games with exact contracts on every move, the
  tic-tac-toe strategy and the text rendering of each board.
- `bitboard`, `adjacency`, `board`, `road_trails`, `bank`, `catan_common`,
  `catan_state`: Catan. Bitboards are viewed as sets of indices; the board,
  the longest-trail table and the game state are specified over those sets,
  with laws such as the conservation of resource cards, the distance rule for
  settlements, the holders of the largest army and the longest road, and a
  longest-trail table that holds the true longest trail of every road network
  a player can build.
- `tournament`: the bookkeeping of a round-robin tournament (match-ups, which
  agents play next, and when to stop dispatching games).
- `chance`, `common`: random draws through the `rand` crate, and items shared
  by the games.

`app/` is the program around it: agents, Monte Carlo tree search, tournaments
run on worker threads, reading configuration files and the archived
longest-trail table, and play against a person at the terminal.

`tests/` exercises the library on concrete games.
