# grid_robot

A robot stands on a 20 by 20 field with walls between some neighbouring
cells. It obeys a small command language: `R`/`L` turn a quarter right or
left, `r`/`l` turn only when the way ahead is blocked, `F` steps forward, and
`n(...)` (or `n` before a single command) repeats. The library looks for a
short command text after which the robot has stood on every cell.

Layout of `src/`:

- `geometry.rs`: cells, directions and their arithmetic.
- `field.rs`: the walls, the robot, one plain command, reachability.
- `command.rs`: commands, their mathematical values and their text.
- `state.rs`: the simulation of command lists and the cells stood on.
- `compress.rs`: merging runs of forward moves, and why that changes nothing.
- `table.rs`: tables indexed by place and heading.
- `search.rs`: the two breadth-first searches over places and headings.
- `solve.rs`: the sweeping patterns, the clean-up of the cells left, and the choice of answer.

`app/main.rs` reads a field from standard input and prints the answer.
