# bin_packer

A heuristic packer for one rectangular bin and many boxes, with axis-aligned
rotations only, verified with Verus.

Lengths are exact integers (`u64`) in a unit of the caller's choice; no length
may exceed `MAX_LENGTH`, so that every volume fits in a `u128`. With integers,
"same length", "fits" and "shares a face" are exact comparisons.

## Layout

- `src/geometry.rs`: axes, dimensions, sizes placed by axis, volumes.
- `src/sorting.rs`: a stable insertion sort by precomputed keys, proved equal
  to its specification.
- `src/orientation.rs`: how an item is turned inside a free space, and how the
  rest of that space is cut into new free spaces.
- `src/free_space.rs`: joining free spaces that share a complete face (they
  meet along one axis and line up exactly on the other two), which keeps
  the region they cover and keeps them from overlapping.
- `src/packer.rs`: the bin, items, spaces and `BinPacker3D::pack`, whose
  result is stated exactly (`pack_spec`) together with the properties that
  hold of every packing: placed items lie inside the bin, no item is lost,
  nothing overlaps (no two placed items, no two free spaces, no free space
  and placed item share an interior point), and the volumes of the placed
  items and of the free spaces add up to the bin's volume.
- `src/packer_io.rs`: turning inputs with quantities into items and grouping
  items back by shape (through an `indexmap::IndexMap`), and gathering a
  packing for display.
- `app/`: the JSON and file interface, the conversion from and to
  floating-point lengths, and timing.
