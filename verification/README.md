# zone-detect

Looks up the country or timezone of a location in a ZoneDetect database, with
the database format, the polygon tests and the merging of results verified
with Verus.

- `src/varint.rs` – the variable-length integers and interleaved points of the format
- `src/text.rs` – strings stored in place or in the metadata section
- `src/header.rs` – the header and `Database::from_vec`
- `src/reader.rs` – reading the points of a polygon, with replayed ranges
- `src/polygon.rs` – the winding-number test of a point against a polygon
- `src/lookup.rs` – scanning the bounding boxes, merging results per zone, fields
- `app/lib.rs` – opening files and the floating-point work: degrees to fixed
  point, the crossing and distance figures of each segment, the safe-zone radius

A lookup goes: `candidate_polygons` (verified) reads the polygons whose boxes
hold the location; the application computes the floating-point figures of
their segments; `resolve_lookup` (verified) tests, merges and labels them;
`ZoneMatch::from_result` (verified) turns each result into a `ZoneMatch`,
and the application's `lookup` returns them as `matches` with the
`safezone` distance.
