# screeps-combat-decision

The combat decisions of a Screeps bot, written and proved in Verus: which objectives are worth a fight,
which squad wins them, and what each creep of it does in a tick.

- `src/` is the library. Every decision is a function of plain values with a contract. Numbers that the
  game counts in fractions are counted in whole parts of one (`src/fixed.rs`), so that the same values
  give the same decision on every machine. What should hold of all inputs stands beside the functions as
  proof functions named `law_..`.
- `tests/` runs the library on concrete battles.
- `app/` joins the library to a bot: floating-point quantities and the curve of the chance to win, the
  stored form of squads, and the places, parts and structures of the game.

The library calls the `screeps` crate for the cost of body parts, for distances between tiles and rooms
and for the cost of tiles. Those calls stand in `src/parts.rs` and `src/geometry.rs`, each with what is
taken on trust of it.
