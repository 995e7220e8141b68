# voxel_detect

Finds moving objects seen by several cameras. Each camera folder holds
numbered frames; the difference of two frames gives the pixels that changed,
each changed pixel gives a ray from its camera, and an octree search keeps the
small cubes that rays from enough distinct cameras cross. The cubes are then
ranked by how many cameras see them and merged into detections.

Layout:

- `src/` is the verified library (Verus). `names` reads camera folder
  names, `frames` picks and orders frame files, `images` differences frames
  and picks bright pixels, `codec` decodes frame files and encodes the
  difference as PNG (through the `image` crate), `cameras` counts distinct
  cameras, `octree` is the breadth-first cube search, `search_laws` states
  what it finds, `ranking` orders the cubes found, and `compress` drives the
  merging of overlapping detections. Each module states its contracts and
  laws.
- `app/` is the program around it: listing folders, reading and writing
  file bytes, the CSV output, and all floating-point geometry (ray
  directions, ray/cube tests, cube positions, detection spheres).
- `tests/` exercises the library on concrete values.
