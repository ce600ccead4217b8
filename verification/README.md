# plate_solver

The integer core of a lost-in-space star-field plate solver, written in Verus
with every function of the library carrying a verified contract.

- `src/blob.rs`, `src/blob_laws.rs` — grouping of 1-D row-scan candidates into
  blobs, and the laws that blobs partition the candidates into link components.
- `src/gray_image.rs`, `src/gate.rs` — the pixel model, the integer stages of
  the 2-D star gate, projections, saturation and peak location.
- `src/detect.rs` — binning checks, hot-pixel rejection, gate size limits.
- `src/db_layout.rs` — the native pattern-database layout, read in place.
- `src/solve.rs`, `src/matching.rs` — the 4-star combination enumeration, the
  pattern-key tolerance box and its nearest-first keys, catalog lookups and
  one-to-one star matching.
- `src/service.rs` — the gRPC service's request checks and result mapping.

`app/` is the server around the library: gRPC plumbing, file and
shared-memory I/O, and the floating-point stages of detection and solving.
