# md

A two-dimensional Lennard-Jones molecular-dynamics program (`md run`,
`md check`, `md video`) whose integer logic is a verified library.

- `src/` — the library, verified with Verus: the periodic cell grid
  (coordinate wrapping, deduplicated neighbour cells, cell occupancy lists),
  the enumeration of unique atom pairs for the all-pairs and cell-list force
  paths, the choice between them, the run's thermostat and sampling schedule,
  the lattice layout, the force-mode names, and the averaging window of the
  energy-drift measurement.
- `app/` — the command line, file and video output, and all floating-point
  physics (pair energy and force, integrators, thermostat scaling, g(r),
  speed statistics), which call into the library for the decisions above.
- `tests/` — tests of the library on concrete values.
