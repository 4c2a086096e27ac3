# playbox

The verified core of a small first-person exploration game and its world
editor, written in Verus.

The world is a half-edge structure (`src/geometry.rs`): rooms are closed loops
of walls, each wall starts at a vertex, and two walls of different rooms can be
connected to form a passage. Every editing operation keeps the structure
well-formed, and its contract says exactly what it changed. Before play, rooms
are cut into convex pieces (`src/processing.rs`), and each piece remembers the
room it was cut from; the processed world (`src/processed_world.rs`) keeps
the result, with what play needs to know of each room, and rebuilds it when a
world change event arrives.

Around the geometry sit the game's message bus (`src/message_bus.rs`), the
console, the HUD and menu commands, the editor's undo history (with the
proof that undoing a group of geometry changes restores what they changed) and
geometry commands, and the per-frame decisions of the controllers.

Layout:

- `src/` — the library, verified by Verus. `src/slots.rs` holds the only
  trusted code: thin wrappers over `slotmap` and `smallvec`, each with the
  contract that crate's source shows. `src/console.rs` wraps `str::trim` and
  `str::split_once`.
- `tests/` — tests run against the compiled library.
- `app/` — a headless driver: random world generation (floating point and
  random numbers), serializable copies of the geometry records, and a console
  loop on standard input.
