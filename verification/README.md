# worker_wrapper

Planning logic for a grid "worker-wrapper" game, proved with Verus: workers
walk a mine, wrap the cells their arms can see, pick up boosters and clone;
plus a generator of chain puzzles and the binary visual and text logs used
to watch a run.

## Layout

- `src/` — the verified library.
  - `desc.rs` — task descriptions and puzzle conditions as bytes: exact
    parsers against a specification of the format.
  - `layout.rs` — laying a description out on a grid (contour marking, row
    filling, row reversal, booster placement) and its RGBA picture.
  - `grid.rs`, `cells.rs` — grid index arithmetic, cells, points, sight
    lines, purchase lists, the text characters of a map.
  - `route.rs` — breadth-first search from one or more workers, stated
    against a model of its queue (`searched`): it gives exactly the goal
    entries the model takes, every route it gives is walkable, and without
    boost it finds a goal whenever one is reachable and its first route is a
    shortest one.
  - `greedy.rs`, `single.rs`, `multi.rs` — the three positions (plain, with
    boosters, with several workers and clones): moves applied and taken
    back, with the law that taking a move back restores the position.
  - `assign.rs` — sending free workers to clone spots and clone boosters.
  - `chain.rs`, `union.rs`, `carve.rs` — chain puzzles: measuring a region
    (extent, corners, and regions by union-find, proved to count the
    regions of cells side by side with one value), building a task from it,
    reading conditions, and the random cuts that carve a region.
  - `log_write.rs`, `vilog.rs`, `trlog.rs` — the byte encoders of the
    visual and text logs, framed step by step.
- `tests/` — tests on concrete values.
- `app/` — the command-line program: file I/O, PNG output, the floating
  point scoring searches and the puzzle generator's accept/reject tests.
