# barricade

A two-player board game on a 9×9 grid, in the style of Quoridor, with bots, written
in Verus. Red starts at the top and races to the bottom row, blue the other way;
instead of moving, a player may place one of its ten barricades, which block two
cell borders, as long as both players can still reach their goal rows.

Layout of `src/`:

- `types.rs`: teams, orientations, barricades.
- `coord.rs`: player cells and barricade slots, with their row-major indices.
- `grid.rs`: the lattice of barricade slots, which steps it blocks, the navigation
  graph it induces, and the search for one simple path per homotopy class around
  the barricades.
- `graph.rs`: the navigation graph, a petgraph `StableGraph`; breadth-first
  reachability and A* shortest routes over it.
- `map.rs`: the board, the movement and placement rules, and the proofs that every
  allowed action keeps both players able to reach their finish lines.
- `path.rs`: paths, their winding around barricades, the barricades that would block
  them and how much one barricade can lengthen them.
- `game.rs`: players, actions, command parsing and the game state machine.
- `bot.rs`: the bot interface and two bots, whose actions are proved legal.
- `render.rs`: the text drawing of the board as a sequence of glyphs.

`app/main.rs` runs the game in a terminal: reading commands, sleeping between bot
moves, and coloring the drawing.
