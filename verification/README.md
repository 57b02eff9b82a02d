# red_black_knights

Pieces take turns placing tokens on an infinite board, each piece visiting the cells in a fixed
order (a square spiral by default) and taking the first cell that is empty and not attacked by
a piece it respects. The patterns that grow are the subject of the project.

## Layout

- `src/` — the library, verified with Verus: visit orders and the spiral, the simulation and
  its storage, the preset and discovery catalogs, random-game helpers, pattern editing, board
  rasters, share-code envelopes, run summaries and the small state machines around them. Every
  public function carries a contract; laws that relate several functions are public proof
  functions.
- `tests/` — executable tests of the library.
- `app/` — the command-line front end: discovery runs written to disk, timing harnesses, and the
  parts that need floating point, serde, threads or the file system.

The outside crates `rand`, `base64`, `png` and `image` are called from the library through small
wrappers whose contracts are stated next to them.
