# knife

The knife tool of a glyph editor, verified with Verus.

- `src/path.rs`: points, segments and paths as the knife sees them; the
  segments of a path from its points.
- `src/slice.rs`: joining segment points, picking the first two crossings along
  the line, ordering two cut points along the
  path, and building the two paths of a cut from the pieces of the old one.
- `src/jobs.rs`: the order in which the pieces of a path are cut again, the
  limit on how deep the cuts go, and the bounds on pieces and steps.
- `src/knife.rs`: the tool's drag gesture, axis lock and crossings, as a state
  machine with laws.
- `app/lib.rs`: the floating-point geometry (kurbo): crossings of the cut
  line, nearest points, sub-curves, the axis lock, and the loop that drives
  the verified pieces.

Positions and curve parameters are type parameters of the library, so the
geometry stays with the caller; where a contract depends on comparing them, it
holds for types whose `PartialEq`/`PartialOrd` follow their specification.
