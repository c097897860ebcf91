# pixel_snapper

Snaps blurry or uneven pixel art to a clean grid: one pixel for each cell.

`src/` is the library. It is written in Verus, and every function states what it does:

- `text`, `args`, `config`, `palette`, `error`: what is asked for, and what is refused.
- `picture`: colours, pixels, images, and reading and writing them.
- `quantize`: reducing an image to a few colours.
- `steps`, `cuts`, `lines`, `walk`, `stabilize`, `candidate`, `order`: finding the grid.
- `resample`: painting the cells.

The library does not reckon with fractions. Where strengths or scores are fractions, it takes
levels: whole numbers that order in the same way. `app/` is the program around it: arguments,
files, and the reckoning in fractions that gives the levels.

`tests/` holds the tests of the library.
