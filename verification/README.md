# rummage

Rules engine for the Commander format of a collectible card game, with its
rules stated as contracts and proved with Verus.

- `src/` — the verified library: entity maps, cards and decks, the turn
  structure and priority, combat, commander rules (command zone, commander
  tax, commander damage, colour identity of decks), multiplayer politics (monarch, votes, deals, goad),
  keywords and counters, permanents, card interaction and the game log.
  Public proof functions named `law_*` state properties that hold across
  calls (a priority round completes once everyone passes, commander damage
  accumulates and 21 eliminates, each cast raises the tax by two, and so on).
- `tests/` — tests of the library on concrete games.
- `app/` — the Bevy front end: resources, events, systems and plugins that
  feed the library from the ECS world, mouse dragging, mana symbol colours
  and the documentation commands.
