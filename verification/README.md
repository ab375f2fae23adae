# orrient

Marker packs and MumbleLink data for a Guild Wars 2 overlay, as a library
verified with Verus, and a small command-line front end.

- `src/` is the library. Every function in it carries a contract that Verus
  proves: reading a marker pack from the bytes of its zip archive (XML
  files into a tree of markers, trail files for its trails),
  naming and finding markers, the set of enabled markers and what switching
  them does, decoding the MumbleLink context block, key handling, the pacing
  of the link, and the UI events drawn from successive frames. Calls into
  `zip`, `quick-xml`, `petgraph`, `slab_tree`, `typed-path` and `byteorder` go
  through small trusted wrappers whose doc comments say what is assumed.
- `app/` reads files from disk, runs the MumbleLink link and talks to the
  user; the only decisions it takes itself are those on floating-point
  values (which trail points have length zero, reading POI coordinates).
- `tests/` runs the library on concrete inputs.
