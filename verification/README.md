# combine_and_command

The rules of a deck-building auto-battler, as a verified library, and the game that
shows them.

- `src/` is the library, checked by Verus: cards and their descriptions (`card`), the
  combat manager with its draw and discard piles, attacks, the end of a turn, closing
  ranks and the combat buttons (`combat`), the overworld map made of random walks
  (`map`), the rest-site card menu and smithy (`rest_sites`), and the home screen
  (`base`). Random choices come from `rand`, behind a few trusted wrappers in
  `random.rs`.
- `app/` is the game: windows, sprites, buttons and input with `bevy` and
  `bevy_mod_picking`. Every decision it takes is a call into the library. Encounters are
  read at the start of each combat from `assets/combats.json`, a list of
  `[pool name, encounters]` pairs where each encounter lists `[unit, attack]` records.
  That file is not part of this crate: the game needs it supplied beside the binary.
  `serde` and `serde_json`, which parse it, are used by `app/` only.
- `tests/` runs the library on concrete games.
