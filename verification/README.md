# μTZ — micro-timezone lookup

Latitude/longitude to IANA timezone, from assets small enough to embed. The
library in `src/` is verified with Verus; `app/` is ordinary Rust around it.

Layout of `src/`:

- Reading an asset: `common`, `header`, `format`, `text`, `bytes`, `caps`,
  `error`, `codecs`, `frames` and `decompress` (containers and codecs),
  `geometry`, `arcs`, `eager`, `full_rings`, `intact` (the geometry encodings), `pip` and
  `path` (point in polygon), `evenodd` (what a polygon claims), `finder`
  (lookups).
- Writing an asset: `walks`, `lex`, `pool`, `owners`, `topo`, `topology`,
  `reconstruct` (shared-arc topology), `stitch`, `clean`, `sift`, `snapped`
  (cleaning after quantization), `grid`, `csr`, `raster` (the grid prefilter),
  `sections`, `payload`, `encode`, `topo_format` (serialization).
- What holds across the two: `readback` (what is written reads back),
  `agreement` and `claims` (every encoding and memory mode claims the same
  points), `answers` (a lookup answers what the encoder was given).
- Simplification: `rdp`, `hops`, `thin`, `tourney`, `select`; the distances
  and areas come from the caller.
- Around the encoder: `presets`, `config`, `source`, `download`, `density`,
  `ieee`, `validate`, `order`, `viewer`, `blob`, `types`, `bench`.

Floating point stays outside the library: coordinates in degrees are passed as
bit patterns, and positions are handed to a finder as grid units. `app/` does
the rounding, the files, the network and the command line.

Only `codecs.rs` and `text.rs` hold declarations that Verus believes without
proof: the compressors, the decompressors, and UTF-8 validation.
