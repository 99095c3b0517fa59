# cTab Web Companion, verified core

`ctab_web` is the verified library of the cTab Web Companion: the Arma 3
extension ("bridge") that publishes a mission's tactical state, and the
local companion program that serves it to a browser on the same PC.

## Layout

- `src/` — the library, verified with Verus. Every public function has a
  contract; the laws of the library are public proof functions.
  - `protocol` — the tactical protocol and its validation (numbers are
    carried as binary64 bit patterns, checked in `float_bits`).
  - `reconcile` — canonical envelopes without duplicate identifiers and the
    stored snapshot that absorbs accepted deltas.
  - `companion` — startup options, tokens, request routing decisions, the
    diagnostics log, the watchdog and the companion's mission state.
  - `bridge` — the extension's dispatch, pipe names and tokens, the
    companion command line, frame headers and output buffers.
  - `recovery` — the restart limiter and the replay buffer that rebuilds a
    restarted companion.
  - `terrain` — world names, catalog selection, metadata checks, tiles,
    provider origins and response limits.
  - `marker_icons`, `pbo`, `paa` — icon references, mod directories, PBO
    archive headers and PAA texture decoding.
  - `cache`, `sorting` — cache accounting and oldest-first eviction.
  - `text` — string helpers with specifications.
- `tests/` — tests of the library.
- `app/` — the program: the HTTP/WebSocket server, the named pipe, the
  terrain downloads, file and process I/O and the extension entry points.
  It calls the library for every decision and does the I/O around it.
