# chipbreaker-core

The geometric core of a machining simulator: exact predicates, interval sets,
triangle meshes and their files, ray casting, and the material that moving tools
take from a field of rays.

A double is held by its bit pattern, and its arithmetic is defined by correct
rounding of exact integers. What the library computes is therefore the same on
every machine, and the contracts speak of the exact values.

- `double`, `arithmetic`, `rounding`, `precision`, `order`, `remainder`,
  `square_root`, `decimal`, `single`: numbers.
- `integer`, `predicates`: the signs of exact determinants, and a corpus of
  degenerate cases.
- `spans`, `span_laws`: sets of intervals along a ray, and what holds of them.
- `roots`, `double_root`: real roots of polynomials up to the fourth degree.
- `mesh`: meshes, welding, validation, a bounding-volume hierarchy, generated
  shapes, and the STL, OBJ and 3MF formats. In `mesh::common` it is proved that
  triangles found to intersect are those with a point in common.
- `sweep`: what a motion covers of a ray, and cutting it away: alone, in batches
  and in chunks.
- `lattice`, `refixture`: moving a field between setups.
- `canonical`, `suites`, `selftest`: digests, and the suites that check the rest.

`app/` has what surrounds the library: files, threads, and the elementary
functions.
