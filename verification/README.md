# fmm_plugin

The decisions behind the Freally MIDI Master plugin — its sample File Explorer,
exports, favourites, named kits, the producer's own style models, the licence
check and the host transport — written in Verus with their contracts proved.

- `src/` is the verified library. Each module states what its functions
  return as spec functions over sequences and text, and the laws that tie
  several calls together are public proof functions beside them.
- `tests/` runs the library on concrete values.
- `app/` is the plugin's side of the disk, the dialogs and the floating-point
  geometry: it reads what the library needs, hands it over, and writes back
  what the library decided.
