# zoc

The rules core of a hexagonal, turn-based tactics game for two players,
written in Verus with its contracts proved.

- `src/` — the verified library:
  - `types`, `dir`, `map`: positions, the six directions, maps, hex distance,
    iteration over a map and over rings and spirals of tiles;
  - `unit`, `db`: units, unit and weapon types, the built-in database;
  - `event`, `state`: commands, events and how events change the game state;
  - `pathfinder`: movement costs and cheapest paths;
  - `sight`, `fow`: lines of sight (a table filled in by the front end) and
    each player's fog of war;
  - `filter`: what each player learns of an event;
  - `rules`: the checks every command must pass;
  - `game`: the core that carries out commands and queues events per player;
  - `ai`: the computer player;
  - `misc`, `view`: small helpers and the plain data of the user interface.
- `tests/` — tests of the library.
- `app/` — a console front end: it computes lines of sight with floating point
  geometry, reads commands and prints events.
