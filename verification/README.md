# dao44_config

A typed source of truth for a personal Dao44 split-keyboard layout, and the
decisions behind flashing its two halves, written in Verus so that the rules
the layout and the flashing flow depend on are proved rather than tested.

## Layout of the crate

- `src/model.rs` — layers, actions, modifiers and guarded (Hyper-gated)
  actions; their keymap syntax and preview presentation; `LayoutSpec::validate`,
  whose verdict is stated exactly, and the laws that guarded-action
  identifiers never collide.
- `src/layout.rs` — the Dao44 layout itself (Base, Nav / WM, Num / Symbol and
  the Colemak-DH and Russian host legends). Each layer's contract gives every
  key position by position, and states the documented layout rules: the untouched ANSI block, the mirrored Shift holds
  on `P18`/`P21`, Escape/Hyper on every layer, empty positions left empty.
- `src/flash.rs` — the local `.env` registration of each half's bootloader
  serial, parsing of `ioreg` and `diskutil` output, choosing the volume of a
  half, planning which image goes to which mounted volume, and registering a
  half on its first flash.
- `src/registration.rs` — the read-back laws: what `upsert_env` writes,
  `parse_env` and `FlashConfig::from_env` read back, and setting a key to
  the value it already holds changes nothing.
- `src/text.rs` — string operations over `Seq<char>` (line splitting,
  trimming, searching, hexadecimal and decimal numbers) with their lemmas.
- `app/` — the command-line program: running `ioreg` and `diskutil`, reading
  and writing `.env`, copying firmware, and the serialisable preview types.
- `tests/` — scenario tests of the library.
