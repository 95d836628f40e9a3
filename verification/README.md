# coloring-bt-transactions

A library for colouring Bitcoin transactions by the blocks their coins come from,
and for drawing the graphs they make. It is written in Verus: what each function
does is stated in its contract and proved.

- `src/` is the library.
  - Colours: `colorset` (sets of blocks), `bands` (weights by band), `means`
    and `mean_run`, `records` and `record_read`, `emit` (lines of output), `handles`.
  - Records as text and as files: `sexp`, `record_text`, `corpus`, `oracle`, `csr`,
    `id_runs`, `bytes`.
  - Trees: `graph`, `forest`, `scene`, `quadtree`, `tree_page`, `viewer`.
  - Blocks: `blocks`, `walk`, `kept`, `settle`, `rows`, `boxes`, `block_scene`,
    `block_places`, `crossings`, `report`, `labels`, `block_page`.
  - Pictures: `image` and `truecolour` (PNG), `pdf`, `raster` (bitmaps and tiles), `svg`, `ink`, `zip`.
  - Command lines: `args`, `numbers`, `text`.
  - The modules whose names end in `_laws` state what holds of several functions
    together; the other laws stand beside the functions they are about.
- `tests/` runs the library on concrete values.
- `app/` holds the programs: files, threads, the window, and everything that is
  floating point (places on paper, the camera, weights, tones).

What is not proved is named where it stands: the `flate2` encoder and its CRC-32
(`zip`), and a few functions of the standard library (`handles`, `raster`, `text`).
