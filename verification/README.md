# rust_mind_map

A terminal mind-map editor whose logic is a library verified with Verus.

- `src/tree.rs`: the mathematical model of a map (`Tree`) and every query
  and update of it as a spec function.
- `src/node.rs`: the executable nodes, each viewed as a `Tree`.
- `src/text.rs`: characters, whitespace, decimal numbers and the string
  operations that the editor uses.
- `src/file.rs`: the tab-indented file format, written and read.
- `src/app.rs`: the editor's state (viewed as `AppState`) and its commands.
- `src/input.rs`: what each key does in each mode.
- `src/ui.rs`: the rows of the tree view, the status bar, the popups and
  their placement.
- `src/config.rs`: the settings.
- `src/laws.rs`, `src/round_trip.rs`: properties that span several
  operations, proved (undo, navigation, search, collapsing, stars, copy and
  paste, removal, and reading back what was written: for maps with plain
  texts, every node comes back with its text, rank, stars, symbol and
  collapsed state).
- `app/main.rs`: the terminal program around the library: arguments, files,
  the configuration file, the event loop and the drawing.
