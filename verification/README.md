# ternary_depth

Depth tracking for nested ternary systems, verified with Verus.

- `src/ternary.rs`: the three-valued sign `Ternary` and its `i8` encoding.
- `src/depth.rs`: `Depth`, a level within a bound, with clamped construction
  and one-level moves.
- `src/bathyscope.rs`: `Bathyscope`, a log of notes keyed by depth, modelled
  as a map from depth to the sequence of notes recorded there.
- `src/abyssal.rs`: `AbyssalZone`, a depth range with an anomaly log.
- `src/decompression.rs`: `PressureDecompression`, staged ascents back to the
  surface, specified by the sequence of stops they must contain.
- `app/lib.rs`: the floating-point models (depth fraction, pressure gauge,
  depth charge, abyssal safety factor), built on the verified types.
