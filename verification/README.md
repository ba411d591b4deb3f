# SwitchHosts core

The core of a switcher for the system hosts file, verified with Verus.

- `src/` is the library: the tree of hosts entries and what can be done to it,
  the manifest that keeps it, and the routes of the local HTTP API. Every
  function carries its contract, and the `*_laws` modules state what holds of
  several functions together.
- `app/` is ordinary Rust around it: the axum server, the files, and the trait
  through which the desktop application provides the rest.
- `tests/` runs the library on concrete trees and requests.

Two functions of other libraries are relied upon without proof: the equality of
string slices of the standard library, and the formatting of a time by `chrono`.
