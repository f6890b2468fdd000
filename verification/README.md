# bricklayers

A post-processor for G-code that staggers the walls of a print like courses of
bricks: inside every perimeter region every other loop is raised by half a layer,
so that layers interlock instead of stacking as flat sheets.

The library under `src/` is written in [Verus](https://github.com/verus-lang/verus).
What each function returns or changes is stated in its contract and proved; what
relates several of them is stated in public proof functions beside them.

| module | what it holds |
|---|---|
| `gcode` | lines, their words and numbers, and the writing of changed ones |
| `rewritten`, `moved` | what a changed line says |
| `feature`, `scan` | what the comments of a slicer mean, and the survey of a file |
| `footprint` | the grid cells that a path covers |
| `brick` | regions, contours, the numbering of loops, the climb, the flow, the order of writing |
| `bgcode` | binary containers: blocks, checksums, packing, metadata |
| `slicer`, `report`, `source`, `error` | what a slicer exports, what is said to the user, and where input comes from |
| `double`, `text` | the order of doubles, and text as bytes |

`app/` is the command line tool around it: files, arguments, and everything that
is computed in floating point. The library takes and returns doubles as their bit
patterns and decides by their order alone.

Trusted without proof are the checksum of `crc32fast`, the two directions of
zlib in `flate2`, and two functions of the standard library on UTF-8. Each
carries a comment that says what is taken for granted.
