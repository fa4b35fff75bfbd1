# pkgtools

Verified building blocks of a set of small Nix and desktop tools, written in
Verus, with a thin command-line front end.

- `src/` is the library. Every function in it is verified against its
  contract: version parsing and ordering, closure and package diffs, matching
  old and new versions, changelog slicing and release spans, the build
  progress model and its rows, store-path parsing, the combined store backend,
  git status parsing for a status line, and the pixel, rectangle, region
  geometry, colour, upload and configuration logic of the screen-capture
  tools. Laws that span several functions are public proof functions named
  `law_*`.
- `tests/` exercises the library on concrete values.
- `app/` is the program: argument handling, running `nix`, `nix-store`, `git`
  and the screen recorder, talking to Hyprland's socket, reading and writing
  files, fetching and uploading over HTTP, and painting styled text on the
  terminal. Steps that alternate such work with decisions, such as the
  fallbacks of a changelog lookup, take each decision from the library.

Calls into outside crates (`url`, `pathfinding`, `diff`, `unicode-width`,
`size`) stand behind small trusted wrappers whose contracts name their
results.
