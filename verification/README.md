# bombahead-rs

A toolkit for Bomberman bots that play on a Bombahead game server, with its
logic proved correct by Verus.

- `src/` is the verified library:
  - `models.rs`, `enums.rs`: the board, players, bombs and actions, with the
    names the server uses for cells and actions.
  - `board.rs`, `danger.rs`, `search.rs`: what the contracts speak of —
    walkable squares, bomb blasts and chain reactions, and breadth-first
    search with the laws that make its answers shortest.
  - `helpers.rs`: `GameHelpers` — walkability, safety, the next step towards
    a target, the nearest safe square, the nearest box.
  - `visualize.rs`, `text.rs`: the board rendered as text.
  - `client.rs`, `json.rs`: the decisions of the client — message kinds, the
    messages it sends, the game state it builds from a server update, and
    what it does with each message.
- `app/` connects to the server over WebSockets (`run`), prints boards
  (`print_field`) and holds the serde forms of the library's types.
- `tests/` runs the library on concrete boards and messages.

## Collections

- The breadth-first searches keep their queue as a `Vec` of squares in
  discovery order, read from an index that moves forward; the same `Vec`,
  with a parallel `Vec` of parent indices, is the search tree that paths are
  rebuilt from. Visited squares are a `HashSet<u64>` of row-major board
  indices, which vstd's hash-set specification covers, so each step of a
  search costs constant time.
- The squares in danger on a tick, and the table of player icons, are `Vec`s
  searched linearly. Their keys are `Position`s (explosions may lie off the
  board, so they have no board index) and player-id `String`s, and vstd's
  hash-table specifications give meaning only to tables keyed by integers and
  similar primitive types: a `HashSet<Position>` or `HashMap<String, _>` could
  not be reasoned about.
- The chain-reaction worklist is a `Vec` of bomb indices read from a moving
  index, with a `Vec<bool>` marking the bombs already queued.
