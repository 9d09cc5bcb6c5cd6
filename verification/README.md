# Rat Run

A terminal bullet-hell horde survivor. You are a rat; the horde wants you
dead. Weapons fire on their own: you move, dodge, collect experience and pick
one of three upgrades at every level.

The crate is in two parts.

- `src/` is the library, checked by Verus: every function carries a
  contract, and the properties that span functions are stated and proved as
  public proof functions (the `lemma_*` items).
  - `level`: themes, palettes, obstacle kinds and the staggered obstacle
    layout of each map, with its nav grid.
  - `nav`: the nav grid (walls inflated by a clearance), the nearest free
    cell search, and the breadth-first flow field whose costs are proved to
    be exact move distances.
  - `collision`: the uniform bucket grid over entity cells and its 3 by 3
    neighbourhood query.
  - `framebuffer`, `palette`, `props`: the pixel buffer with its drawing
    primitives (Bresenham lines, disks, rectangles, saturating blending) and
    the obstacle drawings built from them, each stated pixel by pixel; the
    half-block cells that show the grid on a terminal (each cell stacks two
    pixels: foreground the top one, background the bottom one).
  - `loadout`, `weapon`, `player`, `enemy`, `gem`: the upgrade pool and
    card draw, weapon levels, experience and levelling, enemy and pickup
    tables.
  - `scores`: the high-score table, kept sorted and trimmed to ten entries,
    and the rank a new entry earns.
  - `titleart`: the title rat, rendered from its PNG to block art by
    RASCII and cut into trimmed lines.
  - `screen`: the screen flow (title menu, story, map intro, play, level-up
    card, pause, end screen) as a state machine that returns, in order, the
    actions the shell must carry out; the final score formula.
  - `capped`, `layout`, `lore`, `chance`: the particle capacity, menu card
    placement, narrative text, and the random generator type.
- `app/` is the program around it: the terminal loop, input, audio
  synthesis, high-score files, and the real-valued simulation (movement,
  steering, bullets, particles, camera) that the library does not hold.

`tests/` exercises the library on concrete values.
