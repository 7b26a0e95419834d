# msp_rigid_body

Support code for a rigid-body physics binding, with its decisions proved
correct in Verus.

- `src/` is the verified library:
  - `geometry`: boxes over the total-order keys of doubles;
  - `sorted_keys`, `crbtree`: an id-keyed box index that scans the most
    selective per-axis sorted list;
  - `rtree`: a box index with a lazily rebuilt bounding-volume tree, proved to
    answer exactly what a scan answers;
  - `voxel`: voxel grids split into one box per cell, into merged boxes, or
    into a greedy surface mesh, with the partition properties proved;
  - `ffi`, `events`, `jni`, `dop`, `query`: the one-byte boolean and handle
    packing, event logs read back in order, filter answers, pointer and
    body-type encodings, k-DOP direction sets, feature ids.
- `tests/` runs the library on concrete values.
- `app/` holds the C entry points, the conversions between doubles and keys,
  the floating-point geometry and the calls into the physics engine.
