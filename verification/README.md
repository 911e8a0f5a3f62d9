# orbital_sim

A digital twin of a low-Earth-orbit collision scenario (Cosmos-2251 and
Iridium-33, the ISS Zarya module, a live constellation and their debris),
with a verified core.

- `src/` is the library, verified with Verus: the body catalogue rules and
  trail bookkeeping, the collision broad phase (grid neighbours) and the
  decision of every examined pair, the scenario's phase machine, the
  population cap and TLE-set assignment of fragments, the TLE, CSV and
  date formats the simulator reads, the octree's octant bookkeeping, the
  Earth mesh indices, and the display decisions of the HUD (what is drawn,
  counted, searched and labelled).
- `tests/` runs the library on concrete values.
- `app/` is the program around it: file reading, floating-point orbital
  mechanics and physics, random fragment clouds, GPU rendering and the
  `egui` HUD.  It calls the library for every decision listed above.
