# brusdk

A driver for the Brady M511 label printer over Bluetooth LE, with its logic
proved in Verus: the print-job encoder and its raster compression, the
fragmentation of writes, request framing and the reassembly of the printer's
indication stream, the property map and the status derived from it, the
cartridge table and canvas rules, the probe images, and the decisions of the
HTTP API the label studio talks to.

## Layout

- `src/` the verified library.
  - `job.rs` rasters, job parameters, the job encoder (`encode`), column
    compression, fragmentation, job ids; with the laws that fragments join back
    into the job, that a column's wire form decodes to its pixels, that the
    raster section gives back every inked column, that a pixel reads as last
    written, and that zero copies is one copy with the copies field `+0000`.
  - `proto.rs` request framing, the reassembler, the property map (kept in
    key order), `Status`;
    with the laws that reassembly does not depend on how the stream is cut and
    that a framed payload comes back whole.
  - `request.rs` a print request from base64 PNG to job, and the PNG preview.
  - `supply.rs` the cartridge table, canvas height and default placement.
  - `probes.rs` the probe images used to capture the protocol.
  - `printer.rs`, `ble.rs`, `server.rs` the decisions of the BLE session, the
    scan and the HTTP API.
  - `text.rs`, `wire.rs` strings, decimal and little-endian helpers.
- `tests/` byte-exact checks against the captured jobs and tests of each part.
- `app/` the command-line program: Bluetooth (btleplug), the HTTP server (axum),
  JSON (serde), files, and the floating-point offsets and widths.
