# target_match

Identifies which catalogued sky objects a telescope frame covers, by sky
position only, and measures captured image footprints against each other and
against objects.

- `src/` is the library, written in Verus: every function there carries a
  contract that Verus proves. It holds the decisions of matching and footprint
  evidence that do not depend on floating-point arithmetic: ranking of
  evaluated objects, the declination index, provenance identities and panel
  ordering, containment evidence, coverage-interval discovery, polygon edge
  pairing, sexagesimal recognition, and error messages.
- `app/` is ordinary Rust around it: the floating-point geometry (angles,
  precession, gnomonic projection, polygon Boolean operations, plate scale)
  through the `skymath` and `geo` crates, and the convenience API (`rank`,
  `Matcher`, `FootprintUnion`, ...) that feeds the library plain values.
- `tests/` exercises the library on concrete values.
