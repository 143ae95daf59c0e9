# farm_solitaire

The rules of a solitaire card game about crops, verified with Verus.

The deck has 48 cards: four suits (melon, corn, blueberry, eggplant), each with one card of
rank -3 and of rank 3 and two of each rank from -2 to 2. Cards stack in four tableau columns by
descending rank and unlike suit, one card fits in the free cell, and a 3x3 farm takes one card
per plot. Groups of farm cards of one suit, in the suit's shape and with ranks summing to 0, are
harvested into the market; the game is won when the market holds the whole deck. Every step can
be undone.

Layout of `src/`:

- `bitmask.rs`: sets of farm plots as bit masks.
- `card.rs`, `text.rs`: suits, cards and their text codes (`-1M`), with decimal formatting and
  parsing of ranks.
- `farm.rs`: plot numbers and row/column coordinates.
- `shapes.rs`: the shape each suit's harvested group must have.
- `board.rs`: depots, positions, selections and card movements.
- `game.rs`: the game state, its invariant, and every player action with its exact effect.
- `laws.rs`: properties that span several actions, such as undo taking back the last action.
- `skin.rs`: how ranks, suits and colours are shown.
- `random.rs`: the random generator and the shuffle, from the `rand` crate.

`app/` holds what stays outside the verified library: serde forms of the types for saved games
and the save points that follow the game's actions.
