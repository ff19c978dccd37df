# circuitsim

A SPICE-style analog circuit simulator. The library reads netlists, checks
circuits and analysis commands, decides what to solve and where each unknown
sits, and edits and converts schematics. Every function of it is verified by
Verus to be free of panics and overflow, and each public function against a
contract.

Values are kept exactly as they were written: a `Value` is the literal and the
power of ten of its SI suffix, and comparisons (is a resistance positive, does
a transient window end before it starts, is a pulse period shorter than its
edges) are decided on the exact decimal numbers.

## Layout

- `src/text.rs`: characters, trimming, splitting, lines, decimal numbers.
- `src/decimal.rs`, `src/units.rs`: exact decimal values and SI suffixes.
- `src/circuit.rs`: circuit elements, model tables, validation, matrix sizes.
- `src/netlist.rs`: the netlist reader.
- `src/analysis.rs`: which analyses run; transient window and AC stimulus checks.
- `src/mna.rs`: which unknown holds each node voltage.
- `src/schematic.rs`: grid, union-find, node numbering, schematic to netlist.
- `src/layout.rs`: netlist to schematic (element rows and node spines), and
  that exporting the drawing again gives the netlist's node partition.
- `src/editor.rs`: the schematic editor's actions.
- `src/properties.rs`: properties of the reader over whole netlists.
- `src/export.rs`: what the schematic import reads back from an exported
  netlist.
- `app/`: the command-line program and the floating-point solver (nodal
  analysis with `nalgebra` and `num-complex`).
