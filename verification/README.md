# fbv — verified core of a boardview viewer and donor-board library

`fbv` reads the boardview files used in electronics repair (Test_Link BRD
plain and obfuscated, BRD2, Toptest BDV, BVR v1/v3, PADS ASC, Samsung CAD,
CST, GenCAD, ASUS FZ, XZZ PCB) into one normalized board model, and holds
the rules of the library built on top of it: board identity from file
names, import bookkeeping, the library's index rows, the search grammar,
in-board search and net expansion through jumper parts.

Everything under `src/` is verified with Verus. Each parser states, over
the input bytes, exactly which board it produces or which error it
reports; the board builder keeps its cross references consistent; laws
such as "decoding undoes the obfuscation", "extensions never override a
signature" and "search literals cannot escape their quotes" are proof
functions.

## Layout

- `src/model.rs`, `src/builder.rs`, `src/records.rs` — the board model, the
  builder that keeps it well formed, and boards from parsed records.
- `src/cursor.rs`, `src/text.rs`, `src/strs.rs` — byte cursors, line
  splitting and text helpers shared by the parsers.
- `src/brd.rs`, `src/brd2.rs`, `src/bdv.rs`, `src/bvr.rs`, `src/asc.rs`,
  `src/cad.rs`, `src/cst.rs`, `src/gencad.rs`, `src/fz.rs`, `src/xzz.rs` —
  one module per format; `src/parsers.rs` has detection, errors and the
  dispatch from a format to its parser.
- `src/netclass.rs`, `src/identity.rs`, `src/tabs.rs`, `src/search.rs`,
  `src/index.rs`, `src/data.rs`, `src/settings.rs` — net classes, board
  identity, selection and net expansion, search, import rules, library
  rows and the cache header, settings.
- `tests/` — unit and scenario tests.
- `app/` — the desktop application: user interface, SQLite library,
  file system, import threads, and the floating-point geometry (view
  transforms, GenCAD unit conversion, placement and pad sizes, arc
  tessellation), which it hands back to the library to build the board.

Encrypted formats need user-supplied keys; none ship with the library,
only parity fingerprints to check them against.
