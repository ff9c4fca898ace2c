# battlesnake

A Battlesnake player whose move logic is proved with Verus.

Each turn the player marks the squares that stay occupied, the tails that
move away and the squares next to opponents' heads; then, for every move onto
a valid and safe square, it weighs several strategies (follow our own tail,
head for food when hungry, head for the largest territory, eat food in our
territory, follow another snake's tail) and goes with the cheapest. Distances
come from breadth-first searches; a territory is the set of squares a snake
reaches before every other snake. A turn's costs are `i32`s; what keeps them
in range is stated over what the searches reach (how many moves deep they go,
how many squares our territory holds), not over the board's size.

Layout:

- `src/model.rs`: the game's data and the set-based views the contracts use.
- `src/grid.rs`: neighbouring squares (wrapping in wrapped games), bounds and safety.
- `src/search.rs`: shortest paths, nearest food, and territories, with their proofs.
- `src/paths.rs`: laws of shortest paths (symmetry, triangle inequality, more obstacles, more food).
- `src/snake.rs`: preparing a turn's board, and the random fallback move.
- `src/strategy.rs`: strategies and their order by cost.
- `src/text.rs`: the shout that accompanies a move.
- `src/moves.rs`: choosing the move, and the info, start and end handlers.
- `app/lib.rs`: the JSON types of the API and the handlers that convert to and from the library.
