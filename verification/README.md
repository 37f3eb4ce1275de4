# puyo

A Puyo Puyo engine whose rules are proved with Verus: the field, chain
resolution and scoring, the Modern128 piece queue, pair movement and
placement, the game state, and the integer parts of the chance-PUCT search
and of self-play records.

## Layout

```
src/grid.rs      flood fill and connected-component labels on the 6x13 grid
src/board.rs     Board, chain steps, simulation, scoring, chain labels
src/text.rs      parsing and printing fields
src/game.rs      pieces, Modern128 queue, moves, routes, legal placements,
                 GameState
src/falling.rs   the falling pair of the interactive game
src/mcts.rs      search state, chance nodes, baseline features
src/selfplay.rs  encodings, visit sampling, horizon labels, action facts
src/api.rs       names, limits and chain frames of the web API
tests/           tests of the library
app/             command line, terminal game, web server, floating-point
                 search
```

`app/` holds what is not verified: I/O, the terminal and web front-ends, and
the tree search, whose values and selection are floating point.
